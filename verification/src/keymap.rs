//! A throwaway xkb keymap that binds one key per Unicode scalar of a text,
//! so the text can be typed into a window key by key.

use vstd::prelude::*;

use crate::text::{chars_to_string, dec, digit_char, hex_char, push_dec, push_str};

verus! {

/// First xkb keycode handed out: evdev codes are offset by 8 and the
/// keymap's minimum is 8, so the lowest usable code is 9.
pub const FIRST_KEYCODE: u32 = 9;

/// Upper-case hexadecimal digits of `n`, most significant first.
pub open spec fn hex(n: nat) -> Seq<char>
    decreases n,
{
    if n < 16 {
        seq![hex_char(n)]
    } else {
        hex(n / 16).push(hex_char(n % 16))
    }
}

/// `k` zero digits.
pub open spec fn zeros(k: nat) -> Seq<char> {
    Seq::new(k, |i: int| '0')
}

/// Hexadecimal digits of `n`, zero-padded to at least four (`{:04X}`).
pub open spec fn hex4(n: nat) -> Seq<char> {
    if hex(n).len() < 4 {
        zeros((4 - hex(n).len()) as nat) + hex(n)
    } else {
        hex(n)
    }
}

/// The keycode declaration of the `i`-th key.
pub open spec fn keycode_line(i: nat) -> Seq<char> {
    "    <K"@ + dec(i) + "> = "@ + dec((i + FIRST_KEYCODE) as nat) + ";\n"@
}

/// The symbol declaration of the `i`-th key, bound to scalar `c`.
pub open spec fn symbol_line(i: nat, c: char) -> Seq<char> {
    "    key <K"@ + dec(i) + "> { [ U"@ + hex4(c as nat) + " ] };\n"@
}

/// Keycode declarations of the first `n` keys.
pub open spec fn keycode_decls(n: nat) -> Seq<char>
    decreases n,
{
    if n == 0 {
        Seq::empty()
    } else {
        keycode_decls((n - 1) as nat) + keycode_line((n - 1) as nat)
    }
}

/// Symbol declarations binding the first `n` keys to the scalars of `s`.
pub open spec fn symbol_decls(s: Seq<char>, n: nat) -> Seq<char>
    decreases n,
{
    if n == 0 {
        Seq::empty()
    } else {
        symbol_decls(s, (n - 1) as nat) + symbol_line((n - 1) as nat, s[n - 1])
    }
}

/// The whole keymap for the scalars `s`.
pub open spec fn keymap_text(s: Seq<char>) -> Seq<char> {
    "xkb_keymap {\nxkb_keycodes \"(lantern_emoji)\" {\n    minimum = 8;\n    maximum = "@ + dec(
        (s.len() + FIRST_KEYCODE) as nat,
    ) + ";\n"@ + keycode_decls(s.len()) + "};\nxkb_types \"(lantern_emoji)\" { include \"complete\" };\nxkb_compatibility \"(lantern_emoji)\" { include \"complete\" };\nxkb_symbols \"(lantern_emoji)\" {\n"@
        + symbol_decls(s, s.len()) + "};\n};\n"@
}

/// Keycodes of the first `n` keys: 9, 10, ...
pub open spec fn keycodes(n: nat) -> Seq<u32> {
    Seq::new(n, |i: int| (i + FIRST_KEYCODE) as u32)
}

/// Append the hexadecimal digits of `n`.
fn push_hex(out: &mut Vec<char>, n: u32)
    ensures
        final(out)@ == old(out)@ + hex(n as nat),
    decreases n,
{
    if n >= 16 {
        push_hex(out, n / 16);
    }
    out.push(digit_char(n % 16));
    assert(out@ =~= old(out)@ + hex(n as nat));
}

/// Append the hexadecimal digits of `n`, zero-padded to four.
fn push_hex4(out: &mut Vec<char>, n: u32)
    ensures
        final(out)@ == old(out)@ + hex4(n as nat),
{
    let mut digits: Vec<char> = Vec::new();
    push_hex(&mut digits, n);
    assert(digits@ =~= hex(n as nat));
    let len = digits.len();
    let mut k: usize = len;
    let ghost start = out@;
    while k < 4
        invariant
            len <= k,
            len < 4 ==> k <= 4,
            len >= 4 ==> k == len,
            len == hex(n as nat).len(),
            out@ == start + zeros((k - len) as nat),
        decreases 4 - k,
    {
        out.push('0');
        proof {
            assert(zeros((k + 1 - len) as nat) =~= zeros((k - len) as nat).push('0'));
        }
        k += 1;
    }
    let ghost padded = out@;
    let mut j: usize = 0;
    while j < digits.len()
        invariant
            j <= digits@.len(),
            out@ == padded + digits@.subrange(0, j as int),
        decreases digits@.len() - j,
    {
        out.push(digits[j]);
        proof {
            assert(digits@.subrange(0, j + 1) =~= digits@.subrange(0, j as int).push(digits@[j as int]));
        }
        j += 1;
    }
    proof {
        assert(digits@.subrange(0, j as int) =~= digits@);
        if len < 4 {
            assert(k == 4);
            assert(out@ =~= old(out)@ + hex4(n as nat));
        } else {
            assert(k == len);
            assert(zeros(0) =~= Seq::<char>::empty());
            assert(out@ =~= old(out)@ + hex4(n as nat));
        }
    }
}

/// The keymap binding one key per scalar of `text` (see [`keymap_text`]),
/// with the keycodes to tap in order; `None` for an empty text.
pub fn build_unicode_keymap(text: &str) -> (r: Option<(String, Vec<u32>)>)
    requires
        text@.len() + FIRST_KEYCODE <= u32::MAX,
    ensures
        text@.len() == 0 ==> r is None,
        text@.len() > 0 ==> (r matches Some((km, codes)) && km@ == keymap_text(text@) && codes@ == keycodes(
            text@.len(),
        )),
{
    let n = text.unicode_len();
    if n == 0 {
        return None;
    }
    let mut codes: Vec<u32> = Vec::new();
    let mut kdecls: Vec<char> = Vec::new();
    let mut sdecls: Vec<char> = Vec::new();
    let mut i: usize = 0;
    while i < n
        invariant
            n == text@.len(),
            n + FIRST_KEYCODE <= u32::MAX,
            i <= n,
            codes@ == keycodes(i as nat),
            kdecls@ == keycode_decls(i as nat),
            sdecls@ == symbol_decls(text@, i as nat),
        decreases n - i,
    {
        let kc = i as u32 + FIRST_KEYCODE;
        codes.push(kc);
        push_str(&mut kdecls, "    <K");
        push_dec(&mut kdecls, i as u64);
        push_str(&mut kdecls, "> = ");
        push_dec(&mut kdecls, kc as u64);
        push_str(&mut kdecls, ";\n");
        let c = text.get_char(i);
        push_str(&mut sdecls, "    key <K");
        push_dec(&mut sdecls, i as u64);
        push_str(&mut sdecls, "> { [ U");
        push_hex4(&mut sdecls, c as u32);
        push_str(&mut sdecls, " ] };\n");
        proof {
            assert(codes@ =~= keycodes((i + 1) as nat));
            assert(kdecls@ =~= keycode_decls((i + 1) as nat));
            assert(sdecls@ =~= symbol_decls(text@, (i + 1) as nat));
        }
        i += 1;
    }
    let max = n as u32 + FIRST_KEYCODE;
    let mut out: Vec<char> = Vec::new();
    push_str(&mut out, "xkb_keymap {\nxkb_keycodes \"(lantern_emoji)\" {\n    minimum = 8;\n    maximum = ");
    push_dec(&mut out, max as u64);
    push_str(&mut out, ";\n");
    let mut j: usize = 0;
    while j < kdecls.len()
        invariant
            j <= kdecls@.len(),
            out@ == "xkb_keymap {\nxkb_keycodes \"(lantern_emoji)\" {\n    minimum = 8;\n    maximum = "@ + dec(
                (n + FIRST_KEYCODE) as nat,
            ) + ";\n"@ + kdecls@.subrange(0, j as int),
        decreases kdecls@.len() - j,
    {
        out.push(kdecls[j]);
        proof {
            assert(kdecls@.subrange(0, j + 1) =~= kdecls@.subrange(0, j as int).push(kdecls@[j as int]));
        }
        j += 1;
    }
    proof {
        assert(kdecls@.subrange(0, j as int) =~= kdecls@);
    }
    push_str(
        &mut out,
        "};\nxkb_types \"(lantern_emoji)\" { include \"complete\" };\nxkb_compatibility \"(lantern_emoji)\" { include \"complete\" };\nxkb_symbols \"(lantern_emoji)\" {\n",
    );
    let ghost mid = out@;
    let mut k: usize = 0;
    while k < sdecls.len()
        invariant
            k <= sdecls@.len(),
            out@ == mid + sdecls@.subrange(0, k as int),
        decreases sdecls@.len() - k,
    {
        out.push(sdecls[k]);
        proof {
            assert(sdecls@.subrange(0, k + 1) =~= sdecls@.subrange(0, k as int).push(sdecls@[k as int]));
        }
        k += 1;
    }
    proof {
        assert(sdecls@.subrange(0, k as int) =~= sdecls@);
    }
    push_str(&mut out, "};\n};\n");
    proof {
        assert(out@ =~= keymap_text(text@));
    }
    Some((chars_to_string(&out), codes))
}

} // verus!
