//! The reply of the window-geometry query socket: one tab-separated line per
//! window of the asked output, bottom to top, in physical pixels relative to
//! the output's top-left corner, then `done`.

use vstd::prelude::*;

use crate::text::{
    chars_to_string, copy_range, dec, push_dec, push_str, range, range_starts_with, starts_with, to_chars, trim,
    trim_range,
};

verus! {

/// Whether `c` would break a tab-separated, line-based record.
pub open spec fn is_delimiter(c: char) -> bool {
    c == '\t' || c == '\n' || c == '\r'
}

/// `s` with tabs, newlines and carriage returns replaced by spaces.
pub open spec fn spec_sanitize(s: Seq<char>) -> Seq<char> {
    s.map_values(|c: char| if is_delimiter(c) { ' ' } else { c })
}

/// Append `s` with its delimiters replaced by spaces.
fn push_sanitized(out: &mut Vec<char>, s: &str)
    ensures
        final(out)@ == old(out)@ + spec_sanitize(s@),
{
    let cs = to_chars(s);
    let mut i: usize = 0;
    while i < cs.len()
        invariant
            i <= cs@.len(),
            cs@ == s@,
            out@ == old(out)@ + spec_sanitize(cs@.take(i as int)),
        decreases cs@.len() - i,
    {
        let c = cs[i];
        let d = if c == '\t' || c == '\n' || c == '\r' {
            ' '
        } else {
            c
        };
        out.push(d);
        proof {
            assert(spec_sanitize(cs@.take(i + 1)) =~= spec_sanitize(cs@.take(i as int)).push(d));
        }
        i += 1;
    }
    proof {
        assert(cs@.take(i as int) =~= cs@);
    }
}

/// A sanitized text keeps its length and holds no delimiter, so it can
/// never split a field or a record of the reply.
pub proof fn lemma_sanitized_has_no_delimiter(s: Seq<char>)
    ensures
        spec_sanitize(s).len() == s.len(),
        forall|i: int| 0 <= i < s.len() ==> !is_delimiter(#[trigger] spec_sanitize(s)[i]),
{
}

/// Replace the field and record delimiters of the query wire format by
/// spaces, so a stray tab or newline in a title cannot corrupt it.
pub fn sanitize(s: &str) -> (r: String)
    ensures
        r@ == spec_sanitize(s@),
{
    let mut out: Vec<char> = Vec::new();
    push_sanitized(&mut out, s);
    assert(out@ =~= spec_sanitize(s@));
    chars_to_string(&out)
}

/// One window of the reply: its rectangle in output-local physical pixels,
/// its app id and its title.
pub struct WindowRow {
    pub x: i32,
    pub y: i32,
    pub w: i32,
    pub h: i32,
    pub app_id: String,
    pub title: String,
}

/// Decimal text of `v`, with a leading `-` when negative.
pub open spec fn signed_dec(v: int) -> Seq<char> {
    if v < 0 {
        seq!['-'] + dec((-v) as nat)
    } else {
        dec(v as nat)
    }
}

/// The reply line of one window.
pub open spec fn row_line(r: WindowRow) -> Seq<char> {
    "win:"@ + signed_dec(r.x as int) + "\t"@ + signed_dec(r.y as int) + "\t"@ + signed_dec(r.w as int)
        + "\t"@ + signed_dec(r.h as int) + "\t"@ + spec_sanitize(r.app_id@) + "\t"@ + spec_sanitize(
        r.title@,
    ) + "\n"@
}

/// The lines of `rows` in order, leaving out the windows with no area.
pub open spec fn rows_text(rows: Seq<WindowRow>) -> Seq<char>
    decreases rows.len(),
{
    if rows.len() == 0 {
        Seq::empty()
    } else {
        let last = rows.last();
        rows_text(rows.drop_last()) + if last.w > 0 && last.h > 0 {
            row_line(last)
        } else {
            Seq::<char>::empty()
        }
    }
}

/// Append the decimal text of `v`.
fn push_signed(out: &mut Vec<char>, v: i32)
    ensures
        final(out)@ == old(out)@ + signed_dec(v as int),
{
    if v < 0 {
        out.push('-');
        let m: i64 = -(v as i64);
        push_dec(out, m as u64);
        assert(out@ =~= old(out)@ + signed_dec(v as int));
    } else {
        push_dec(out, v as u64);
    }
}

/// The reply body for the windows `rows` (bottom to top): a line
/// `win:x<TAB>y<TAB>w<TAB>h<TAB>app_id<TAB>title` for each window with a
/// positive width and height, delimiters in the two texts replaced by
/// spaces, then the line `done`.
pub fn window_rects_response(rows: &Vec<WindowRow>) -> (r: String)
    ensures
        r@ == rows_text(rows@) + "done\n"@,
{
    let mut out: Vec<char> = Vec::new();
    let mut i: usize = 0;
    while i < rows.len()
        invariant
            i <= rows@.len(),
            out@ == rows_text(rows@.take(i as int)),
        decreases rows@.len() - i,
    {
        let row = &rows[i];
        let ghost before = out@;
        if row.w > 0 && row.h > 0 {
            push_str(&mut out, "win:");
            push_signed(&mut out, row.x);
            push_str(&mut out, "\t");
            push_signed(&mut out, row.y);
            push_str(&mut out, "\t");
            push_signed(&mut out, row.w);
            push_str(&mut out, "\t");
            push_signed(&mut out, row.h);
            push_str(&mut out, "\t");
            push_sanitized(&mut out, row.app_id.as_str());
            push_str(&mut out, "\t");
            push_sanitized(&mut out, row.title.as_str());
            push_str(&mut out, "\n");
            assert(out@ =~= before + row_line(*row));
        }
        proof {
            assert(rows@.take(i + 1).drop_last() =~= rows@.take(i as int));
        }
        i += 1;
    }
    proof {
        assert(rows@.take(i as int) =~= rows@);
    }
    push_str(&mut out, "done\n");
    chars_to_string(&out)
}

/// The output asked for by a request line: the line, trimmed, must start
/// with `query:`; what follows is the output's name (empty for the first
/// output).
pub open spec fn spec_query_output(line: Seq<char>) -> Option<Seq<char>> {
    let t = trim(line);
    if starts_with(t, "query:"@) {
        Some(t.skip(6))
    } else {
        None
    }
}

/// Parse a request line (see [`spec_query_output`]); `None` for anything
/// that is not a query.
pub fn parse_query_request(line: &str) -> (r: Option<String>)
    ensures
        match spec_query_output(line@) {
            Some(o) => r matches Some(s) && s@ == o,
            None => r is None,
        },
{
    proof {
        reveal_strlit("query:");
    }
    let cs = to_chars(line);
    let (lo, hi) = trim_range(&cs, 0, cs.len());
    proof {
        assert(range(cs@, 0, cs@.len() as int) =~= line@);
    }
    if !range_starts_with(&cs, lo, hi, "query:") {
        return None;
    }
    let name = copy_range(&cs, lo + 6, hi);
    proof {
        assert(range(cs@, lo as int, hi as int).skip(6) =~= range(cs@, lo + 6, hi as int));
    }
    Some(chars_to_string(&name))
}

/// A query connection is served only when its peer runs as our own user.
pub fn peer_allowed(peer_uid: Option<u32>, our_uid: u32) -> (r: bool)
    ensures
        r == (peer_uid == Some(our_uid)),
{
    match peer_uid {
        Some(u) => u == our_uid,
        None => false,
    }
}

} // verus!
