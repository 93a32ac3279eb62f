//! Readers for the small hand-parsed configuration texts: the icon of a
//! `.desktop` entry, the wallpaper setting, the trusted-clients allowlist,
//! the tiling gap, and the wire sanitiser of the window query socket.

use vstd::prelude::*;

use crate::geometry::clamp_to;
use crate::text::{
    after_line, chars_to_string, copy_range, find_line_end, is_ws, lemma_line_end, line_end, parse_i32,
    parse_i32_spec, range, range_is, range_starts_with, starts_with, to_chars, trim, trim_end_by,
    trim_end_range, trim_range, trim_start, trim_start_by, trim_start_range,
};

verus! {

/// The first line of `s`.
pub open spec fn first_line(s: Seq<char>) -> Seq<char> {
    s.take(line_end(s))
}

/// The value of an `Icon` key line `t` (already trimmed): after `Icon`,
/// optional whitespace, `=`, then the trimmed rest, which must be non-empty.
pub open spec fn icon_value(t: Seq<char>) -> Option<Seq<char>> {
    let r = trim_start(t.skip("Icon"@.len() as int));
    if r.len() > 0 && r[0] == '=' && trim(r.drop_first()).len() > 0 {
        Some(trim(r.drop_first()))
    } else {
        None
    }
}

/// Scan the lines of `rest` for the first `Icon=` value inside the
/// `[Desktop Entry]` section (`in_entry`: whether that section is open).
pub open spec fn icon_scan(rest: Seq<char>, in_entry: bool) -> Option<Seq<char>>
    decreases rest.len(),
{
    if rest.len() == 0 {
        None
    } else {
        proof {
            lemma_line_end(rest);
        }
        let t = trim(first_line(rest));
        if t.len() > 0 && t[0] == '[' {
            icon_scan(after_line(rest), t == "[Desktop Entry]"@)
        } else if in_entry && starts_with(t, "Icon"@) && icon_value(t) is Some {
            icon_value(t)
        } else {
            icon_scan(after_line(rest), in_entry)
        }
    }
}

/// Facts that let a line-by-line loop step through `s`.
proof fn lemma_line_step(s: Seq<char>, pos: int, k: int)
    requires
        0 <= pos < s.len(),
        k == pos + line_end(s.skip(pos)),
    ensures
        pos <= k <= s.len(),
        first_line(s.skip(pos)) == range(s, pos, k),
        after_line(s.skip(pos)) == if k < s.len() {
            s.skip(k + 1)
        } else {
            s.skip(s.len() as int)
        },
{
    lemma_line_end(s.skip(pos));
    assert(first_line(s.skip(pos)) =~= range(s, pos, k));
    if k < s.len() {
        assert(s.skip(pos).skip(k - pos + 1) =~= s.skip(k + 1));
    } else {
        assert(s.skip(s.len() as int) =~= Seq::<char>::empty());
    }
}

/// The first `Icon=` value of the `[Desktop Entry]` section of a `.desktop`
/// file (see [`icon_scan`]).
pub fn read_icon_key(contents: &str) -> (r: Option<String>)
    ensures
        r matches Some(v) ==> icon_scan(contents@, false) == Some(v@),
        r is None ==> icon_scan(contents@, false) is None,
{
    let cs = to_chars(contents);
    let n = cs.len();
    let mut pos: usize = 0;
    let mut in_entry = false;
    proof {
        assert(cs@.skip(0) =~= cs@);
    }
    while pos < n
        invariant
            n == cs@.len(),
            cs@ == contents@,
            pos <= n,
            icon_scan(cs@, false) == icon_scan(cs@.skip(pos as int), in_entry),
        decreases n - pos,
    {
        let k = find_line_end(&cs, pos);
        proof {
            lemma_line_step(cs@, pos as int, k as int);
        }
        let (a, b) = trim_range(&cs, pos, k);
        let ghost t = range(cs@, a as int, b as int);
        let next = if k < n {
            k + 1
        } else {
            n
        };
        if a < b && cs[a] == '[' {
            proof {
                assert(t[0] == cs@[a as int]);
            }
            in_entry = range_is(&cs, a, b, "[Desktop Entry]");
        } else {
            proof {
                if a < b {
                    assert(t[0] == cs@[a as int]);
                }
            }
            if in_entry && range_starts_with(&cs, a, b, "Icon") {
                let klen = "Icon".unicode_len();
                let r0 = trim_start_range(&cs, a + klen, b, Ghost(|c: char| is_ws(c)), |c: char| -> (x: bool)
                    ensures
                        x == is_ws(c),
                    { crate::text::is_whitespace(c) });
                proof {
                    assert(range(cs@, (a + klen) as int, b as int) =~= t.skip("Icon"@.len() as int));
                    if r0 < b {
                        assert(range(cs@, r0 as int, b as int)[0] == cs@[r0 as int]);
                    }
                }
                if r0 < b && cs[r0] == '=' {
                    let (va, vb) = trim_range(&cs, r0 + 1, b);
                    proof {
                        assert(range(cs@, (r0 + 1) as int, b as int) =~= range(cs@, r0 as int, b as int).drop_first());
                    }
                    if va < vb {
                        let v = copy_range(&cs, va, vb);
                        return Some(chars_to_string(&v));
                    }
                }
            }
        }
        pos = next;
    }
    proof {
        assert(cs@.skip(pos as int) =~= Seq::<char>::empty());
    }
    None
}

/// Whether `c` is a space or a tab.
pub open spec fn is_blank(c: char) -> bool {
    c == ' ' || c == '\t'
}

/// The value of a `wallpaper` key line `t` (already trimmed): after
/// `wallpaper` comes `=`, a space or a tab; then spaces and tabs, `=`, and
/// the value, trimmed and stripped of surrounding double quotes.
pub open spec fn wallpaper_value(t: Seq<char>) -> Option<Seq<char>> {
    let r = t.skip("wallpaper"@.len() as int);
    let first = if r.len() > 0 {
        r[0]
    } else {
        '='
    };
    let r2 = trim_start_by(r, |c: char| is_blank(c));
    if (first == '=' || first == ' ' || first == '\t') && r2.len() > 0 && r2[0] == '=' {
        Some(trim_end_by(trim_start_by(trim(r2.drop_first()), |c: char| c == '"'), |c: char| c == '"'))
    } else {
        None
    }
}

/// Scan the lines of `rest` for the wallpaper setting of the `[appearance]`
/// section (`in_app`: whether that section is open).
pub open spec fn wallpaper_scan(rest: Seq<char>, in_app: bool) -> Option<Seq<char>>
    decreases rest.len(),
{
    if rest.len() == 0 {
        None
    } else {
        proof {
            lemma_line_end(rest);
        }
        let t = trim(first_line(rest));
        if t.len() > 0 && t[0] == '[' {
            wallpaper_scan(after_line(rest), t == "[appearance]"@)
        } else if in_app && starts_with(t, "wallpaper"@) && wallpaper_value(t) is Some {
            wallpaper_value(t)
        } else {
            wallpaper_scan(after_line(rest), in_app)
        }
    }
}

/// The global wallpaper path from the configuration text (see
/// [`wallpaper_scan`]); empty when it is not set.
pub fn read_wallpaper_setting(contents: &str) -> (r: String)
    ensures
        r@ == match wallpaper_scan(contents@, false) {
            Some(v) => v,
            None => Seq::empty(),
        },
{
    let cs = to_chars(contents);
    let n = cs.len();
    let mut pos: usize = 0;
    let mut in_app = false;
    proof {
        assert(cs@.skip(0) =~= cs@);
    }
    while pos < n
        invariant
            n == cs@.len(),
            cs@ == contents@,
            pos <= n,
            wallpaper_scan(cs@, false) == wallpaper_scan(cs@.skip(pos as int), in_app),
        decreases n - pos,
    {
        let k = find_line_end(&cs, pos);
        proof {
            lemma_line_step(cs@, pos as int, k as int);
        }
        let (a, b) = trim_range(&cs, pos, k);
        let ghost t = range(cs@, a as int, b as int);
        let next = if k < n {
            k + 1
        } else {
            n
        };
        if a < b && cs[a] == '[' {
            proof {
                assert(t[0] == cs@[a as int]);
            }
            in_app = range_is(&cs, a, b, "[appearance]");
        } else {
            proof {
                if a < b {
                    assert(t[0] == cs@[a as int]);
                }
            }
            if in_app && range_starts_with(&cs, a, b, "wallpaper") {
                let klen = "wallpaper".unicode_len();
                let s0 = a + klen;
                proof {
                    assert(range(cs@, s0 as int, b as int) =~= t.skip("wallpaper"@.len() as int));
                    if s0 < b {
                        assert(range(cs@, s0 as int, b as int)[0] == cs@[s0 as int]);
                    }
                }
                let first = if s0 < b {
                    cs[s0]
                } else {
                    '='
                };
                if first == '=' || first == ' ' || first == '\t' {
                    let r0 = trim_start_range(&cs, s0, b, Ghost(|c: char| is_blank(c)), |c: char| -> (x: bool)
                        ensures
                            x == is_blank(c),
                        { c == ' ' || c == '\t' });
                    proof {
                        if r0 < b {
                            assert(range(cs@, r0 as int, b as int)[0] == cs@[r0 as int]);
                        }
                    }
                    if r0 < b && cs[r0] == '=' {
                        let (va, vb) = trim_range(&cs, r0 + 1, b);
                        proof {
                            assert(range(cs@, (r0 + 1) as int, b as int) =~= range(cs@, r0 as int, b as int).drop_first());
                        }
                        let qa = trim_start_range(&cs, va, vb, Ghost(|c: char| c == '"'), |c: char| -> (x: bool)
                            ensures
                                x == (c == '"'),
                            { c == '"' });
                        let qb = trim_end_range(&cs, qa, vb, Ghost(|c: char| c == '"'), |c: char| -> (x: bool)
                            ensures
                                x == (c == '"'),
                            { c == '"' });
                        let v = copy_range(&cs, qa, qb);
                        return chars_to_string(&v);
                    }
                }
            }
        }
        pos = next;
    }
    proof {
        assert(cs@.skip(pos as int) =~= Seq::<char>::empty());
    }
    String::new()
}

/// The strings between matched double quotes in `t`, in order; `cur` is the
/// text of a quote opened before `t` (when `in_quote`).
pub open spec fn quoted(t: Seq<char>, in_quote: bool, cur: Seq<char>) -> Seq<Seq<char>>
    decreases t.len(),
{
    if t.len() == 0 {
        Seq::empty()
    } else if t[0] == '"' && !in_quote {
        quoted(t.drop_first(), true, Seq::empty())
    } else if t[0] == '"' {
        seq![cur] + quoted(t.drop_first(), false, Seq::empty())
    } else if in_quote {
        quoted(t.drop_first(), true, cur.push(t[0]))
    } else {
        quoted(t.drop_first(), false, cur)
    }
}

/// The quoted entries of the allowlist text: every line, trimmed, that is
/// not empty and not a `#` comment contributes the strings it quotes.
pub open spec fn allowlist_scan(rest: Seq<char>) -> Seq<Seq<char>>
    decreases rest.len(),
{
    if rest.len() == 0 {
        Seq::empty()
    } else {
        proof {
            lemma_line_end(rest);
        }
        let t = trim(first_line(rest));
        let here = if t.len() == 0 || t[0] == '#' {
            Seq::empty()
        } else {
            quoted(t, false, Seq::empty())
        };
        here + allowlist_scan(after_line(rest))
    }
}

/// Append the quoted strings of `s[lo..hi]` (see [`quoted`]).
fn push_quoted(s: &Vec<char>, lo: usize, hi: usize, out: &mut Vec<String>)
    requires
        lo <= hi <= s@.len(),
    ensures
        final(out)@.len() == old(out)@.len() + quoted(range(s@, lo as int, hi as int), false, Seq::empty()).len(),
        forall|i: int| 0 <= i < old(out)@.len() ==> #[trigger] final(out)@[i] == old(out)@[i],
        forall|i: int|
            0 <= i < quoted(range(s@, lo as int, hi as int), false, Seq::empty()).len()
                ==> (#[trigger] final(out)@[old(out)@.len() + i])@ == quoted(range(s@, lo as int, hi as int), false, Seq::empty())[i],
{
    let ghost total = quoted(range(s@, lo as int, hi as int), false, Seq::empty());
    let ghost start = out@;
    let mut in_quote = false;
    let mut cur: Vec<char> = Vec::new();
    let mut i = lo;
    let ghost mut done: Seq<Seq<char>> = Seq::empty();
    proof {
        assert(range(s@, lo as int, hi as int) =~= range(s@, i as int, hi as int));
    }
    while i < hi
        invariant
            lo <= i <= hi <= s@.len(),
            total == done + quoted(range(s@, i as int, hi as int), in_quote, cur@),
            out@.len() == start.len() + done.len(),
            forall|j: int| 0 <= j < start.len() ==> #[trigger] out@[j] == start[j],
            forall|j: int| 0 <= j < done.len() ==> #[trigger] out@[start.len() + j]@ == done[j],
        decreases hi - i,
    {
        let c = s[i];
        let ghost rest = range(s@, i as int, hi as int);
        proof {
            assert(rest[0] == c);
            assert(rest.drop_first() =~= range(s@, i + 1, hi as int));
        }
        if c == '"' && !in_quote {
            in_quote = true;
            cur = Vec::new();
        } else if c == '"' {
            in_quote = false;
            out.push(chars_to_string(&cur));
            proof {
                let d2 = done.push(cur@);
                assert(d2 + quoted(range(s@, i + 1, hi as int), false, Seq::empty()) =~= done + (seq![cur@]
                    + quoted(range(s@, i + 1, hi as int), false, Seq::empty())));
                done = d2;
            }
            cur = Vec::new();
        } else if in_quote {
            cur.push(c);
        }
        i += 1;
    }
    proof {
        assert(range(s@, i as int, hi as int) =~= Seq::<char>::empty());
        assert(total =~= done);
    }
}

/// The quoted path entries of the trusted-clients allowlist text (see
/// [`allowlist_scan`]), in order.
pub fn allowlist_entries(contents: &str) -> (r: Vec<String>)
    ensures
        r@.len() == allowlist_scan(contents@).len(),
        forall|i: int| 0 <= i < r@.len() ==> #[trigger] r@[i]@ == allowlist_scan(contents@)[i],
{
    let cs = to_chars(contents);
    let n = cs.len();
    let mut out: Vec<String> = Vec::new();
    let mut pos: usize = 0;
    let ghost mut done: Seq<Seq<char>> = Seq::empty();
    proof {
        assert(cs@.skip(0) =~= cs@);
    }
    while pos < n
        invariant
            n == cs@.len(),
            cs@ == contents@,
            pos <= n,
            allowlist_scan(cs@) == done + allowlist_scan(cs@.skip(pos as int)),
            out@.len() == done.len(),
            forall|j: int| 0 <= j < done.len() ==> #[trigger] out@[j]@ == done[j],
        decreases n - pos,
    {
        let k = find_line_end(&cs, pos);
        proof {
            lemma_line_step(cs@, pos as int, k as int);
        }
        let (a, b) = trim_range(&cs, pos, k);
        let ghost t = range(cs@, a as int, b as int);
        let next = if k < n {
            k + 1
        } else {
            n
        };
        proof {
            if a < b {
                assert(t[0] == cs@[a as int]);
            }
        }
        if !(a == b || cs[a] == '#') {
            let ghost before = out@;
            push_quoted(&cs, a, b, &mut out);
            proof {
                let q = quoted(t, false, Seq::empty());
                assert forall|j: int| 0 <= j < done.len() + q.len() implies #[trigger] out@[j]@ == (done + q)[j] by {
                    if j >= done.len() {
                        assert(out@[before.len() + (j - done.len())]@ == q[j - done.len()]);
                    }
                }
                assert((done + q) + allowlist_scan(after_line(cs@.skip(pos as int))) =~= done + (q
                    + allowlist_scan(after_line(cs@.skip(pos as int)))));
                done = done + q;
            }
        } else {
            proof {
                assert(done + (Seq::<Seq<char>>::empty() + allowlist_scan(after_line(cs@.skip(pos as int))))
                    =~= done + allowlist_scan(after_line(cs@.skip(pos as int))));
            }
        }
        pos = next;
    }
    proof {
        assert(cs@.skip(pos as int) =~= Seq::<char>::empty());
        assert(done + Seq::<Seq<char>>::empty() =~= done);
    }
    out
}

/// Force-reload the trusted-clients allowlist: kept so the operation exists,
/// it does nothing, since the allowlist is read once (on first use) and
/// kept for the compositor's lifetime.
pub fn reload_extra_allowlist() {
}

/// The tiling gap for the configured text `value`: parsed as an `i32`
/// (8 when it does not parse) and limited to `0..=32`.
pub open spec fn spec_default_gap(value: Seq<char>) -> int {
    match parse_i32_spec(value) {
        Some(v) => clamp_to(v as int, 0, 32),
        None => 8,
    }
}

/// The inner tiling gap for the configured `window_manager.gap` text (see
/// [`spec_default_gap`]).
pub fn default_gap(value: &str) -> (r: i32)
    ensures
        r == spec_default_gap(value@),
        0 <= r <= 32,
{
    match parse_i32(value) {
        Some(v) => crate::geometry::clamp_i32(v, 0, 32),
        None => 8,
    }
}

/// The outer tiling gap: the same value as the inner one.
pub fn default_outer_gap(value: &str) -> (r: i32)
    ensures
        r == spec_default_gap(value@),
{
    default_gap(value)
}

/// The icon name for a window's `app_id`: none for an empty id; otherwise the
/// `Icon=` of its `.desktop` entry when one was found, else the id itself.
pub fn resolve_icon_name(app_id: &str, desktop_icon: Option<String>) -> (r: Option<String>)
    ensures
        app_id@.len() == 0 ==> r is None,
        app_id@.len() > 0 ==> (r matches Some(v) && v@ == match desktop_icon {
            Some(d) => d@,
            None => app_id@,
        }),
{
    if app_id.unicode_len() == 0 {
        return None;
    }
    match desktop_icon {
        Some(icon) => Some(icon),
        None => {
            let cs = to_chars(app_id);
            Some(chars_to_string(&cs))
        },
    }
}

/// The monitors with a non-empty wallpaper of their own, as (output name,
/// path) pairs in configuration order.
pub open spec fn spec_per_output_paths(cfgs: Seq<(Seq<char>, Option<Seq<char>>)>) -> Seq<(Seq<char>, Seq<char>)> {
    cfgs.filter(|c: (Seq<char>, Option<Seq<char>>)| c.1 matches Some(w) && w.len() > 0).map_values(
        |c: (Seq<char>, Option<Seq<char>>)| (c.0, c.1->0),
    )
}

/// A monitor entry as plain values.
pub open spec fn cfg_view(c: &(String, Option<String>)) -> (Seq<char>, Option<Seq<char>>) {
    (
        c.0@,
        match &c.1 {
            Some(w) => Some(w@),
            None => None,
        },
    )
}

/// Per-output wallpaper overrides (see [`spec_per_output_paths`]) of the
/// `[[monitors]]` entries given as (name, wallpaper) pairs.
pub fn per_output_paths(cfgs: Vec<(String, Option<String>)>) -> (r: Vec<(String, String)>)
    ensures
        r@.map_values(|p: (String, String)| (p.0@, p.1@)) == spec_per_output_paths(
            cfgs@.map_values(|c: (String, Option<String>)| cfg_view(&c)),
        ),
{
    let ghost vs = cfgs@.map_values(|c: (String, Option<String>)| cfg_view(&c));
    let mut out: Vec<(String, String)> = Vec::new();
    let mut i: usize = 0;
    while i < cfgs.len()
        invariant
            i <= cfgs@.len(),
            vs == cfgs@.map_values(|c: (String, Option<String>)| cfg_view(&c)),
            out@.map_values(|p: (String, String)| (p.0@, p.1@)) == spec_per_output_paths(vs.take(i as int)),
        decreases cfgs@.len() - i,
    {
        proof {
            assert(vs.take(i + 1).drop_last() =~= vs.take(i as int));
            reveal(Seq::filter);
        }
        let c = &cfgs[i];
        let ghost before = out@;
        match &c.1 {
            Some(w) => {
                if w.unicode_len() > 0 {
                    out.push((c.0.clone(), w.clone()));
                }
            },
            None => {},
        }
        proof {
            let x = vs.take(i + 1).last();
            assert(x == cfg_view(c));
            let prev = spec_per_output_paths(vs.take(i as int));
            if x.1 matches Some(w) && w.len() > 0 {
                assert(spec_per_output_paths(vs.take(i + 1)) =~= prev.push((x.0, x.1->0)));
            } else {
                assert(spec_per_output_paths(vs.take(i + 1)) =~= prev);
            }
            assert(out@.map_values(|p: (String, String)| (p.0@, p.1@)) =~= spec_per_output_paths(vs.take(i + 1)));
        }
        i += 1;
    }
    proof {
        assert(vs.take(i as int) =~= vs);
    }
    out
}

} // verus!
