use vstd::prelude::*;
use crate::digits::{is_digit, digit_char, digit_val, char_is_digit, char_digit_val, digit_to_char,
    lemma_digit_char_val, lemma_digit_char_of_val};

verus! {

/// Whether `c` is a lowercase hexadecimal digit character.
pub open spec fn is_hex(c: char) -> bool {
    is_digit(c) || c == 'a' || c == 'b' || c == 'c' || c == 'd' || c == 'e' || c == 'f'
}

/// The lowercase hexadecimal digit character for a value below sixteen.
pub open spec fn hex_char(d: nat) -> char
    recommends
        d < 16,
{
    if d < 10 { digit_char(d) } else if d == 10 { 'a' } else if d == 11 { 'b' }
    else if d == 12 { 'c' } else if d == 13 { 'd' } else if d == 14 { 'e' } else { 'f' }
}

/// The value of a hexadecimal digit character.
pub open spec fn hex_val(c: char) -> nat
    recommends
        is_hex(c),
{
    if c == 'a' { 10 } else if c == 'b' { 11 } else if c == 'c' { 12 } else if c == 'd' { 13 }
    else if c == 'e' { 14 } else if c == 'f' { 15 } else { digit_val(c) }
}

pub proof fn lemma_hex_char_val(d: nat)
    requires
        d < 16,
    ensures
        is_hex(hex_char(d)),
        hex_val(hex_char(d)) == d,
{
    if d < 10 {
        lemma_digit_char_val(d);
    }
}

pub proof fn lemma_hex_char_of_val(c: char)
    requires
        is_hex(c),
    ensures
        hex_char(hex_val(c)) == c,
{
    if is_digit(c) {
        lemma_digit_char_of_val(c);
    }
}

/// The control character with code point `v`.
pub open spec fn ctrl_char(v: nat) -> char
    recommends
        v < 32,
{
    (v as u8) as char
}

pub proof fn lemma_ctrl_char_of_code(c: char)
    requires
        (c as u32) < 32,
    ensures
        ctrl_char((c as u32) as nat) == c,
{
}

pub proof fn lemma_ctrl_char_code(v: nat)
    requires
        v < 32,
    ensures
        (ctrl_char(v) as u32) == v,
{
}

/// How one character of a string field appears on the wire: backslash and
/// double quote get a backslash escape, control characters become a
/// four-digit hexadecimal escape, everything else stands as itself. No
/// escape form contains a control character, so no embedded newline can
/// break the line framing.
pub open spec fn esc_char(c: char) -> Seq<char> {
    if c == '\\' {
        seq!['\\', '\\']
    } else if c == '"' {
        seq!['\\', '"']
    } else if (c as u32) < 32 {
        seq!['\\', 'u', '0', '0', hex_char(((c as u32) / 16) as nat), hex_char(
            ((c as u32) % 16) as nat,
        )]
    } else {
        seq![c]
    }
}

/// The wire form of a whole string field.
pub open spec fn spec_escape(s: Seq<char>) -> Seq<char>
    decreases s.len(),
{
    if s.len() == 0 {
        Seq::empty()
    } else {
        esc_char(s[0]) + spec_escape(s.subrange(1, s.len() as int))
    }
}

pub proof fn lemma_escape_snoc(s: Seq<char>, c: char)
    ensures
        spec_escape(s.push(c)) == spec_escape(s) + esc_char(c),
    decreases s.len(),
{
    if s.len() == 0 {
        assert(s.push(c).len() == 1);
        assert(s.push(c)[0] == c);
        assert(spec_escape(s) == Seq::<char>::empty());
        let tail = s.push(c).subrange(1, 1);
        assert(tail.len() == 0);
        assert(spec_escape(tail) == Seq::<char>::empty());
        assert(spec_escape(s.push(c)) == esc_char(c) + spec_escape(tail));
        assert(spec_escape(s.push(c)) =~= spec_escape(s) + esc_char(c));
    } else {
        let t = s.subrange(1, s.len() as int);
        assert(s.push(c).subrange(1, s.len() as int + 1) =~= t.push(c));
        lemma_escape_snoc(t, c);
        assert(s.push(c)[0] == s[0]);
        assert(spec_escape(s.push(c)) == esc_char(s[0]) + (spec_escape(t) + esc_char(c)));
        assert(esc_char(s[0]) + (spec_escape(t) + esc_char(c)) =~= (esc_char(s[0])
            + spec_escape(t)) + esc_char(c));
    }
}

/// Parse a string field at position `i` (just past its opening quote), up to
/// and including its closing quote. Only the exact escape forms the encoder
/// emits are accepted, and a raw control character is refused.
pub open spec fn spec_parse_content(s: Seq<char>, i: int) -> Option<(Seq<char>, int)>
    recommends
        0 <= i <= s.len(),
    decreases s.len() - i when 0 <= i <= s.len()
{
    if i >= s.len() {
        None
    } else if s[i] == '"' {
        Some((Seq::empty(), i + 1))
    } else if s[i] == '\\' {
        if i + 2 <= s.len() && (s[i + 1] == '\\' || s[i + 1] == '"') {
            match spec_parse_content(s, i + 2) {
                Some((t, j)) => Some((seq![s[i + 1]] + t, j)),
                None => None,
            }
        } else if i + 6 <= s.len() && s[i + 1] == 'u' && s[i + 2] == '0' && s[i + 3] == '0' && (s[i
            + 4] == '0' || s[i + 4] == '1') && is_hex(s[i + 5]) {
            match spec_parse_content(s, i + 6) {
                Some((t, j)) => Some(
                    (seq![ctrl_char(16 * hex_val(s[i + 4]) + hex_val(s[i + 5]))] + t, j),
                ),
                None => None,
            }
        } else {
            None
        }
    } else if (s[i] as u32) < 32 {
        None
    } else {
        match spec_parse_content(s, i + 1) {
            Some((t, j)) => Some((seq![s[i]] + t, j)),
            None => None,
        }
    }
}

/// Completeness: where the wire form of `t` stands at `i`, followed by a
/// closing quote, the parser returns exactly `t` and stops just past that
/// quote.
pub proof fn lemma_parse_content_complete(s: Seq<char>, i: int, t: Seq<char>)
    requires
        0 <= i,
        i + spec_escape(t).len() + 1 <= s.len(),
        s.subrange(i, i + spec_escape(t).len() + 1) == spec_escape(t) + seq!['"'],
    ensures
        spec_parse_content(s, i) == Some((t, i + spec_escape(t).len() + 1)),
    decreases t.len(),
{
    let el = spec_escape(t).len() as int;
    assert forall|k: int| 0 <= k < el + 1 implies s[i + k] == (spec_escape(t) + seq!['"'])[k] by {
        assert(s.subrange(i, i + el + 1)[k] == s[i + k]);
    }
    assert(s[i + 0] == (spec_escape(t) + seq!['"'])[0]);
    if t.len() == 0 {
        assert(s[i] == '"');
    } else {
        let c = t[0];
        let t2 = t.subrange(1, t.len() as int);
        let e = esc_char(c);
        let le = e.len() as int;
        assert(spec_escape(t) == e + spec_escape(t2));
        assert forall|k: int| 0 <= k < le implies s[i + k] == e[k] by {
            assert((spec_escape(t) + seq!['"'])[k] == e[k]);
        }
        assert(s[i + 0] == e[0]);
        assert(s[i] == e[0]);
        assert(s.subrange(i + le, i + le + spec_escape(t2).len() + 1) =~= spec_escape(t2)
            + seq!['"']) by {
            assert forall|k: int| 0 <= k < spec_escape(t2).len() + 1 implies s.subrange(
                i + le,
                i + le + spec_escape(t2).len() + 1,
            )[k] == (spec_escape(t2) + seq!['"'])[k] by {
                assert(s[i + (le + k)] == (spec_escape(t) + seq!['"'])[le + k]);
            }
        }
        lemma_parse_content_complete(s, i + le, t2);
        if c == '\\' {
            assert(s[i] == '\\' && s[i + 1] == '\\');
            assert(seq![s[i + 1]] + t2 =~= t);
        } else if c == '"' {
            assert(s[i] == '\\' && s[i + 1] == '"');
            assert(seq![s[i + 1]] + t2 =~= t);
        } else if (c as u32) < 32 {
            let hv = c as u32;
            assert(s[i] == '\\' && s[i + 1] == 'u' && s[i + 2] == '0' && s[i + 3] == '0');
            assert(s[i + 4] == hex_char((hv / 16) as nat));
            assert(s[i + 5] == hex_char((hv % 16) as nat));
            lemma_hex_char_val((hv / 16) as nat);
            lemma_hex_char_val((hv % 16) as nat);
            assert(hv / 16 == 0 || hv / 16 == 1);
            assert(hex_char(0nat) == '0' && hex_char(1nat) == '1');
            assert(16 * hex_val(s[i + 4]) + hex_val(s[i + 5]) == hv);
            lemma_ctrl_char_of_code(c);
            assert(ctrl_char(hv as nat) == c);
            assert(seq![ctrl_char(16 * hex_val(s[i + 4]) + hex_val(s[i + 5]))] + t2 =~= t);
        } else {
            assert(s[i] == c);
            assert(s[i] != '"' && s[i] != '\\');
            assert(seq![s[i]] + t2 =~= t);
        }
    }
}

/// Soundness: a successful content parse consumed exactly the wire form of
/// its result, closing quote included.
pub proof fn lemma_parse_content_sound(s: Seq<char>, i: int)
    requires
        0 <= i <= s.len(),
        spec_parse_content(s, i) is Some,
    ensures
        ({
            let (t, j) = spec_parse_content(s, i)->Some_0;
            &&& i < j <= s.len()
            &&& s.subrange(i, j) == spec_escape(t) + seq!['"']
        }),
    decreases s.len() - i,
{
    let (t, j) = spec_parse_content(s, i)->Some_0;
    if s[i] == '"' {
        assert(s.subrange(i, i + 1) =~= spec_escape(Seq::<char>::empty()) + seq!['"']);
    } else if s[i] == '\\' {
        if i + 2 <= s.len() && (s[i + 1] == '\\' || s[i + 1] == '"') {
            let (t2, j2) = spec_parse_content(s, i + 2)->Some_0;
            lemma_parse_content_sound(s, i + 2);
            assert(t == seq![s[i + 1]] + t2);
            assert(t[0] == s[i + 1]);
            assert(t.subrange(1, t.len() as int) =~= t2);
            assert(esc_char(t[0]) =~= seq![s[i], s[i + 1]]);
            assert(s.subrange(i, j) =~= esc_char(t[0]) + (spec_escape(t2) + seq!['"'])) by {
                assert forall|k: int| 0 <= k < j - i implies s.subrange(i, j)[k] == (esc_char(t[0])
                    + (spec_escape(t2) + seq!['"']))[k] by {
                    if k >= 2 {
                        assert(s.subrange(i + 2, j)[k - 2] == s[i + k]);
                    }
                }
            }
            assert(spec_escape(t) == esc_char(t[0]) + spec_escape(t2));
            assert(s.subrange(i, j) =~= spec_escape(t) + seq!['"']);
        } else {
            let h1 = s[i + 4];
            let h2 = s[i + 5];
            let v = 16 * hex_val(h1) + hex_val(h2);
            let c = ctrl_char(v);
            let (t2, j2) = spec_parse_content(s, i + 6)->Some_0;
            lemma_parse_content_sound(s, i + 6);
            assert(t == seq![c] + t2);
            assert(t[0] == c);
            assert(t.subrange(1, t.len() as int) =~= t2);
            assert(hex_val(h1) < 2 && hex_val(h2) < 16);
            assert(v < 32);
            lemma_ctrl_char_code(v);
            assert((c as u32) == v);
            lemma_hex_char_of_val(h1);
            lemma_hex_char_of_val(h2);
            assert(hex_char(((c as u32) / 16) as nat) == h1);
            assert(hex_char(((c as u32) % 16) as nat) == h2);
            assert(esc_char(c) =~= seq![s[i], s[i + 1], s[i + 2], s[i + 3], s[i + 4], s[i + 5]]);
            assert(s.subrange(i, j) =~= esc_char(c) + (spec_escape(t2) + seq!['"'])) by {
                assert forall|k: int| 0 <= k < j - i implies s.subrange(i, j)[k] == (esc_char(c)
                    + (spec_escape(t2) + seq!['"']))[k] by {
                    if k >= 6 {
                        assert(s.subrange(i + 6, j)[k - 6] == s[i + k]);
                    }
                }
            }
            assert(spec_escape(t) == esc_char(c) + spec_escape(t2));
            assert(s.subrange(i, j) =~= spec_escape(t) + seq!['"']);
        }
    } else {
        let (t2, j2) = spec_parse_content(s, i + 1)->Some_0;
        lemma_parse_content_sound(s, i + 1);
        assert(t == seq![s[i]] + t2);
        assert(t[0] == s[i]);
        assert(t.subrange(1, t.len() as int) =~= t2);
        assert(esc_char(t[0]) =~= seq![s[i]]);
        assert(s.subrange(i, j) =~= esc_char(t[0]) + (spec_escape(t2) + seq!['"'])) by {
            assert forall|k: int| 0 <= k < j - i implies s.subrange(i, j)[k] == (esc_char(t[0])
                + (spec_escape(t2) + seq!['"']))[k] by {
                if k >= 1 {
                    assert(s.subrange(i + 1, j)[k - 1] == s[i + k]);
                }
            }
        }
        assert(spec_escape(t) == esc_char(t[0]) + spec_escape(t2));
        assert(s.subrange(i, j) =~= spec_escape(t) + seq!['"']);
    }
}

/// The lowercase hexadecimal digit character, as executable code.
pub fn hex_to_char(d: u8) -> (c: char)
    requires
        d < 16,
    ensures
        c == hex_char(d as nat),
{
    if d < 10 {
        digit_to_char(d)
    } else {
        match d {
            10 => 'a',
            11 => 'b',
            12 => 'c',
            13 => 'd',
            14 => 'e',
            _ => 'f',
        }
    }
}

/// Whether `c` is a lowercase hexadecimal digit, as executable code.
pub fn char_is_hex(c: char) -> (r: bool)
    ensures
        r == is_hex(c),
{
    if char_is_digit(c) {
        true
    } else {
        match c {
            'a' | 'b' | 'c' | 'd' | 'e' | 'f' => true,
            _ => false,
        }
    }
}

/// The value of a hexadecimal digit character, as executable code.
pub fn char_hex_val(c: char) -> (d: u64)
    requires
        is_hex(c),
    ensures
        d == hex_val(c),
        d < 16,
{
    match c {
        'a' => 10,
        'b' => 11,
        'c' => 12,
        'd' => 13,
        'e' => 14,
        'f' => 15,
        _ => char_digit_val(c),
    }
}

/// Append the wire form of the string field `cs` to `out`.
pub fn push_escaped(out: &mut Vec<char>, cs: &Vec<char>)
    ensures
        final(out)@ == old(out)@ + spec_escape(cs@),
{
    let mut k: usize = 0;
    assert(cs@.subrange(0, 0) =~= Seq::<char>::empty());
    assert(out@ =~= old(out)@ + spec_escape(cs@.subrange(0, 0)));
    while k < cs.len()
        invariant
            k <= cs@.len(),
            out@ == old(out)@ + spec_escape(cs@.subrange(0, k as int)),
        decreases cs@.len() - k,
    {
        let c = cs[k];
        let ghost pre = out@;
        if c == '\\' {
            out.push('\\');
            out.push('\\');
        } else if c == '"' {
            out.push('\\');
            out.push('"');
        } else if (c as u32) < 32 {
            let v = c as u32;
            out.push('\\');
            out.push('u');
            out.push('0');
            out.push('0');
            out.push(hex_to_char((v / 16) as u8));
            out.push(hex_to_char((v % 16) as u8));
        } else {
            out.push(c);
        }
        proof {
            assert(out@ =~= pre + esc_char(c));
            lemma_escape_snoc(cs@.subrange(0, k as int), c);
            assert(cs@.subrange(0, k + 1) =~= cs@.subrange(0, k as int).push(c));
            assert(out@ =~= old(out)@ + spec_escape(cs@.subrange(0, k + 1)));
        }
        k = k + 1;
    }
    assert(cs@.subrange(0, cs@.len() as int) =~= cs@);
}

/// Combine a remaining-content parse with what was already read.
pub open spec fn parse_content_from(s: Seq<char>, i: int, acc: Seq<char>) -> Option<
    (Seq<char>, int),
> {
    match spec_parse_content(s, i) {
        Some((t, j)) => Some((acc + t, j)),
        None => None,
    }
}

/// Parse a string field of `v` starting at `i` (just past its opening
/// quote), agreeing exactly with `spec_parse_content`.
pub fn parse_content(v: &Vec<char>, start: usize) -> (r: Option<(Vec<char>, usize)>)
    requires
        start <= v@.len(),
    ensures
        match r {
            Some((t, j)) => spec_parse_content(v@, start as int) == Some((t@, j as int)) && start
                < j <= v@.len(),
            None => spec_parse_content(v@, start as int) is None,
        },
{
    let mut i: usize = start;
    let mut out: Vec<char> = Vec::new();
    loop
        invariant
            start <= i <= v@.len(),
            spec_parse_content(v@, start as int) == parse_content_from(v@, i as int, out@),
        decreases v@.len() - i,
    {
        if i >= v.len() {
            return None;
        }
        let c = v[i];
        if c == '"' {
            assert(out@ + Seq::<char>::empty() =~= out@);
            return Some((out, i + 1));
        }
        if c == '\\' {
            if v.len() - i >= 2 && (v[i + 1] == '\\' || v[i + 1] == '"') {
                let e = v[i + 1];
                proof {
                    if spec_parse_content(v@, i + 2) is Some {
                        let (t, j) = spec_parse_content(v@, i + 2)->Some_0;
                        assert(out@ + (seq![e] + t) =~= out@.push(e) + t);
                    }
                }
                out.push(e);
                i = i + 2;
            } else if v.len() - i >= 6 && v[i + 1] == 'u' && v[i + 2] == '0' && v[i + 3] == '0'
                && (v[i + 4] == '0' || v[i + 4] == '1') && char_is_hex(v[i + 5]) {
                let h1 = char_hex_val(v[i + 4]);
                let h2 = char_hex_val(v[i + 5]);
                let c2 = ((16 * h1 + h2) as u8) as char;
                proof {
                    assert(c2 == ctrl_char(16 * hex_val(v@[i + 4]) + hex_val(v@[i + 5])));
                    if spec_parse_content(v@, i + 6) is Some {
                        let (t, j) = spec_parse_content(v@, i + 6)->Some_0;
                        assert(out@ + (seq![c2] + t) =~= out@.push(c2) + t);
                    }
                }
                out.push(c2);
                i = i + 6;
            } else {
                return None;
            }
        } else if (c as u32) < 32 {
            return None;
        } else {
            proof {
                if spec_parse_content(v@, i + 1) is Some {
                    let (t, j) = spec_parse_content(v@, i + 1)->Some_0;
                    assert(out@ + (seq![c] + t) =~= out@.push(c) + t);
                }
            }
            out.push(c);
            i = i + 1;
        }
    }
}

} // verus!
