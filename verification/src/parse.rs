//! Reading the state file back.  Each parsing function's contract states
//! completeness against the encoding of `codec`: whenever the text at the
//! current position is the encoding of a value followed by what the grammar
//! allows, the parse succeeds and returns exactly that value.  Together with
//! [`crate::codec::encode_state`] this makes a saved state decode to an
//! equal state.

use vstd::prelude::*;
use crate::codec::{
    spec_digit_char, spec_digit_val, spec_escape, spec_escape_char, spec_installed_entries,
    spec_installed_entry, spec_installed_tail, spec_is_digit, spec_json_meta, spec_json_state,
    spec_json_string, spec_pending_entries, spec_pending_entry, spec_pending_tail, spec_u64_chars,
};
use crate::metadata::{ContentMetadata, InstalledContent, MetaView};
use crate::namemap::{MapEntry, NameMap};
use crate::state::SavedState;

verus! {

/// The characters of `lit` stand at `pos`.
pub open spec fn lit_at(s: Seq<char>, pos: int, lit: Seq<char>) -> bool {
    0 <= pos && pos + lit.len() <= s.len() && s.subrange(pos, pos + lit.len()) == lit
}

/// Consume the exact characters of `lit` at `pos`: succeeds, advancing past
/// them, exactly when they stand there.
fn parse_lit(s: &Vec<char>, pos: usize, lit: &str) -> (r: Option<usize>)
    requires
        pos <= s@.len(),
    ensures
        match r {
            Some(p2) => p2 == pos + lit@.len() && lit_at(s@, pos as int, lit@),
            None => !lit_at(s@, pos as int, lit@),
        },
{
    let m = lit.unicode_len();
    if m > s.len() - pos {
        return None;
    }
    let mut j: usize = 0;
    while j < m
        invariant
            j <= m,
            m == lit@.len(),
            pos + m <= s@.len(),
            s@.len() == s.len(),
            forall|k: int| 0 <= k < j ==> s@[pos + k] == lit@[k],
        decreases m - j,
    {
        let c = s[pos + j];
        if c != lit.get_char(j) {
            proof {
                assert(!lit_at(s@, pos as int, lit@)) by {
                    if lit_at(s@, pos as int, lit@) {
                        assert(s@.subrange(pos as int, pos + lit@.len())[j as int] == lit@[j as int]);
                    }
                }
            }
            return None;
        }
        j = j + 1;
    }
    proof {
        assert(s@.subrange(pos as int, pos + lit@.len()) =~= lit@);
    }
    Some(pos + m)
}

/// The numeric value of a digit sequence, most significant digit first.
pub open spec fn spec_digits_val(d: Seq<char>) -> int
    decreases d.len(),
{
    if d.len() == 0 {
        0
    } else {
        spec_digits_val(d.drop_last()) * 10 + spec_digit_val(d.last())
    }
}

/// All characters are decimal digits.
pub open spec fn all_digits(d: Seq<char>) -> bool {
    forall|i: int| 0 <= i < d.len() ==> spec_is_digit(#[trigger] d[i])
}

/// The decimal representation of `n` consists of digits.
proof fn lemma_u64_chars_digits(n: int)
    requires
        0 <= n,
    ensures
        all_digits(spec_u64_chars(n)),
        spec_u64_chars(n).len() >= 1,
    decreases n,
{
    if n < 10 {
        assert(spec_is_digit(spec_digit_char(n)));
        assert(spec_u64_chars(n) == seq![spec_digit_char(n)]);
    } else {
        lemma_u64_chars_digits(n / 10);
        assert(spec_is_digit(spec_digit_char(n % 10)));
        assert(spec_u64_chars(n) == spec_u64_chars(n / 10).push(spec_digit_char(n % 10)));
        assert forall|i: int| 0 <= i < spec_u64_chars(n).len() implies spec_is_digit(
            spec_u64_chars(n)[i],
        ) by {
            if i < spec_u64_chars(n / 10).len() {
                assert(spec_u64_chars(n)[i] == spec_u64_chars(n / 10)[i]);
            }
        }
    }
}

/// Reading back the decimal representation of `n` yields `n`.
proof fn lemma_val_of_u64_chars(n: int)
    requires
        0 <= n,
    ensures
        spec_digits_val(spec_u64_chars(n)) == n,
    decreases n,
{
    if n < 10 {
        assert(seq![spec_digit_char(n)].drop_last() =~= Seq::<char>::empty());
        assert(spec_digits_val(Seq::<char>::empty()) == 0);
    } else {
        lemma_val_of_u64_chars(n / 10);
        let w = spec_u64_chars(n / 10).push(spec_digit_char(n % 10));
        assert(w.drop_last() =~= spec_u64_chars(n / 10));
        assert(w.last() == spec_digit_char(n % 10));
    }
}

/// Digit sequences have non-negative value.
proof fn lemma_digits_val_nonneg(d: Seq<char>)
    requires
        all_digits(d),
    ensures
        spec_digits_val(d) >= 0,
    decreases d.len(),
{
    if d.len() > 0 {
        assert(all_digits(d.drop_last())) by {
            assert(forall|i: int| 0 <= i < d.drop_last().len() ==> d.drop_last()[i] == d[i]);
        }
        lemma_digits_val_nonneg(d.drop_last());
        assert(spec_is_digit(d.last()));
    }
}

/// A prefix of a digit sequence has a value no greater than the whole.
proof fn lemma_digits_val_prefix_le(d: Seq<char>, i: int)
    requires
        all_digits(d),
        0 <= i <= d.len(),
    ensures
        spec_digits_val(d.take(i)) <= spec_digits_val(d),
    decreases d.len() - i,
{
    if i < d.len() {
        assert(d.take(i + 1).drop_last() =~= d.take(i));
        assert(d.take(i + 1).last() == d[i]);
        assert(all_digits(d.take(i))) by {
            assert(forall|k: int| 0 <= k < i ==> d.take(i)[k] == d[k]);
        }
        lemma_digits_val_nonneg(d.take(i));
        assert(spec_is_digit(d[i]));
        assert(spec_digits_val(d.take(i + 1)) == spec_digits_val(d.take(i)) * 10 + spec_digit_val(
            d[i],
        ));
        lemma_digits_val_prefix_le(d, i + 1);
        assert(d.take(d.len() as int) =~= d);
    } else {
        assert(d.take(i) =~= d);
    }
}

/// Numeric value of one digit character.
fn digit_val(c: char) -> (r: u64)
    requires
        spec_is_digit(c),
    ensures
        r == spec_digit_val(c),
        r < 10,
{
    (c as u32 - 48) as u64
}

/// Read the digit run `[start, end)` as a `u64`: whenever the run is the
/// decimal representation of some `n`, the result is `n`.
fn digits_to_u64(s: &Vec<char>, start: usize, end: usize) -> (r: Option<u64>)
    requires
        start <= end <= s@.len(),
    ensures
        forall|n: u64|
            s@.subrange(start as int, end as int) == spec_u64_chars(n as int) ==> r == Some(n),
{
    let ghost d = s@.subrange(start as int, end as int);
    let mut acc: u64 = 0;
    let mut i: usize = start;
    while i < end
        invariant
            start <= i <= end <= s@.len(),
            d == s@.subrange(start as int, end as int),
            all_digits(d.take(i - start)),
            acc == spec_digits_val(d.take(i - start)),
        decreases end - i,
    {
        let c = s[i];
        proof {
            assert(d[i - start] == s@[i as int]);
        }
        if !('0' <= c && c <= '9') {
            proof {
                assert forall|n: u64| d == spec_u64_chars(n as int) implies false by {
                    lemma_u64_chars_digits(n as int);
                }
            }
            return None;
        }
        let dv = digit_val(c);
        if acc > (u64::MAX - dv) / 10 {
            proof {
                assert forall|n: u64| d == spec_u64_chars(n as int) implies false by {
                    lemma_u64_chars_digits(n as int);
                    lemma_val_of_u64_chars(n as int);
                    assert(d.take(i - start + 1).drop_last() =~= d.take(i - start));
                    assert(d.take(i - start + 1).last() == d[i - start]);
                    assert(spec_digits_val(d.take(i - start + 1)) == acc * 10 + dv);
                    lemma_digits_val_prefix_le(d, i - start + 1);
                }
            }
            return None;
        }
        acc = acc * 10 + dv;
        proof {
            assert(d.take(i - start + 1).drop_last() =~= d.take(i - start));
            assert(d.take(i - start + 1).last() == d[i - start]);
            assert(all_digits(d.take(i - start + 1))) by {
                assert(forall|k: int|
                    0 <= k < i - start ==> d.take(i - start + 1)[k] == #[trigger] d.take(
                        i - start,
                    )[k]);
                assert(d.take(i - start + 1)[i - start] == d[i - start]);
            }
        }
        i = i + 1;
    }
    proof {
        assert(d.take(end - start) =~= d);
        assert forall|n: u64| d == spec_u64_chars(n as int) implies acc == n by {
            lemma_val_of_u64_chars(n as int);
        }
    }
    Some(acc)
}

/// The decimal representation of `n` stands at `pos`, followed by `rest`,
/// which does not begin with a digit.
pub open spec fn u64_at(s: Seq<char>, pos: int, n: u64, rest: Seq<char>) -> bool {
    &&& 0 <= pos <= s.len()
    &&& s.subrange(pos, s.len() as int) == spec_u64_chars(n as int) + rest
    &&& (rest.len() == 0 || !spec_is_digit(rest[0]))
}

/// A parsed number and the position right after it.
pub type ParsedU64 = Option<(u64, usize)>;

/// What a number parse owes when the representation of `n` stands at `pos`:
/// success with value `n`, stopping right after it.
pub open spec fn u64_res(r: ParsedU64, pos: int, n: u64) -> bool {
    match r {
        Some(p) => p.0 == n && p.1 == pos + spec_u64_chars(n as int).len(),
        None => false,
    }
}

/// The representation of `n` stands at `pos`, delimited by a non-digit.
pub open spec fn u64_encoded_at(s: Seq<char>, pos: int, n: u64) -> bool {
    exists|rest: Seq<char>| u64_at(s, pos, n, rest)
}

/// The end of the digit run beginning at `pos`.
fn scan_digits(s: &Vec<char>, pos: usize) -> (j: usize)
    requires
        pos <= s@.len(),
    ensures
        pos <= j <= s@.len(),
        forall|k: int| pos <= k < j ==> spec_is_digit(#[trigger] s@[k]),
        j == s@.len() || !spec_is_digit(s@[j as int]),
    decreases s@.len() - pos,
{
    if pos == s.len() {
        return pos;
    }
    let c = s[pos];
    if '0' <= c && c <= '9' {
        scan_digits(s, pos + 1)
    } else {
        pos
    }
}

/// Consume a decimal number at `pos`: whenever the text there is the
/// representation of `n` delimited by a non-digit, the result is `n`.
fn parse_u64(s: &Vec<char>, pos: usize) -> (r: ParsedU64)
    requires
        pos <= s@.len(),
    ensures
        forall|n: u64| #[trigger] u64_encoded_at(s@, pos as int, n) ==> u64_res(r, pos as int, n),
        match r {
            Some(p) => pos <= p.1 <= s@.len(),
            None => true,
        },
{
    let j = scan_digits(s, pos);
    proof {
        assert(j == s@.len() || !spec_is_digit(s@[j as int]));
        assert forall|n: u64| u64_encoded_at(s@, pos as int, n) implies j == pos + spec_u64_chars(
            n as int,
        ).len() && s@.subrange(pos as int, j as int) == spec_u64_chars(n as int) by {
            let rest = choose|rest: Seq<char>| u64_at(s@, pos as int, n, rest);
            let w = spec_u64_chars(n as int);
            lemma_u64_chars_digits(n as int);
            assert(s@.subrange(pos as int, s@.len() as int) == w + rest);
            assert forall|k: int| pos <= k < pos + w.len() implies spec_is_digit(
                #[trigger] s@[k],
            ) by {
                assert(s@[k] == s@.subrange(pos as int, s@.len() as int)[k - pos]);
                assert(s@[k] == w[k - pos]);
            }
            if j < pos + w.len() {
                assert(spec_is_digit(s@[j as int]));
                assert(false);
            }
            if j > pos + w.len() {
                assert(s@[pos + w.len()] == s@.subrange(pos as int, s@.len() as int)[w.len() as int]);
                assert(rest.len() > 0 && s@[pos + w.len()] == rest[0]);
                assert(spec_is_digit(s@[pos + w.len()]));
                assert(false);
            }
            assert(s@.subrange(pos as int, j as int) =~= w);
        }
    }
    let v = match digits_to_u64(s, pos, j) {
        Some(v) => v,
        None => {
            proof {
                assert forall|n: u64| u64_encoded_at(s@, pos as int, n) implies false by {
                }
            }
            return None;
        },
    };
    proof {
        assert forall|n: u64| u64_encoded_at(s@, pos as int, n) implies v == n by {
        }
    }
    Some((v, j))
}


/// The escaped body of `v`, a closing quote, then `rest`, stand at `pos`.
pub open spec fn string_body_at(s: Seq<char>, pos: int, v: Seq<char>, rest: Seq<char>) -> bool {
    &&& 0 <= pos <= s.len()
    &&& s.subrange(pos, s.len() as int) == spec_escape(v) + seq!['"'] + rest
}

/// Some continuation makes `v`'s escaped body stand at `pos`.
pub open spec fn string_body_encoded_at(s: Seq<char>, pos: int, v: Seq<char>) -> bool {
    exists|rest: Seq<char>| string_body_at(s, pos, v, rest)
}

/// A parse position result.
pub type ParsedAt = Option<usize>;

/// What a string-body parse owes when `v`'s escaped body stands at `pos`:
/// success, stopping right after the closing quote.
pub open spec fn string_body_res(r: ParsedAt, pos: int, v: Seq<char>) -> bool {
    match r {
        Some(p2) => p2 == pos + spec_escape(v).len() + 1,
        None => false,
    }
}

/// Consume an escaped string body up to its closing quote, appending the
/// unescaped characters to `out`.
fn parse_string_body(s: &Vec<char>, pos: usize, out: &mut Vec<char>) -> (r: ParsedAt)
    requires
        pos <= s@.len(),
    ensures
        forall|v: Seq<char>| #[trigger] string_body_encoded_at(s@, pos as int, v)
            ==> string_body_res(r, pos as int, v) && final(out)@ == old(out)@ + v,
        match r {
            Some(p2) => pos < p2 <= s@.len(),
            None => true,
        },
    decreases s@.len() - pos,
{
    let len = s.len();
    if pos >= len {
        proof {
            assert forall|v: Seq<char>| #[trigger] string_body_encoded_at(s@, pos as int, v) implies false by {
                let rest = choose|rest: Seq<char>| string_body_at(s@, pos as int, v, rest);
                assert(s@.subrange(pos as int, s@.len() as int).len() == 0);
                assert((spec_escape(v) + seq!['"'] + rest).len() >= 1);
            }
        }
        return None;
    }
    let c = s[pos];
    proof {
        assert(s@[pos as int] == s@.subrange(pos as int, s@.len() as int)[0]);
    }
    if c == '"' {
        proof {
            assert forall|v: Seq<char>| #[trigger] string_body_encoded_at(s@, pos as int, v) implies
                string_body_res(Some((pos + 1) as usize), pos as int, v) && out@ == out@ + v by {
                let rest = choose|rest: Seq<char>| string_body_at(s@, pos as int, v, rest);
                if v.len() > 0 {
                    assert(spec_escape(v) == spec_escape_char(v[0]) + spec_escape(v.drop_first()));
                    assert((spec_escape(v) + seq!['"'] + rest)[0] == spec_escape_char(v[0])[0]);
                    assert(false);
                }
                assert(spec_escape(v) == Seq::<char>::empty());
                assert(out@ + v =~= out@);
            }
        }
        return Some(pos + 1);
    }
    if c == '\\' {
        if pos + 1 >= len {
            proof {
                assert forall|v: Seq<char>| #[trigger] string_body_encoded_at(s@, pos as int, v) implies
                    false by {
                    let rest = choose|rest: Seq<char>| string_body_at(s@, pos as int, v, rest);
                    if v.len() > 0 {
                        assert(spec_escape(v) == spec_escape_char(v[0]) + spec_escape(
                            v.drop_first(),
                        ));
                        if v[0] == '"' || v[0] == '\\' {
                            assert((spec_escape(v) + seq!['"'] + rest).len() >= 3);
                        } else {
                            assert((spec_escape(v) + seq!['"'] + rest)[0] == v[0]);
                        }
                    }
                }
            }
            return None;
        }
        let d = s[pos + 1];
        proof {
            assert(s@[pos + 1] == s@.subrange(pos as int, s@.len() as int)[1]);
        }
        if d == '"' || d == '\\' {
            let ghost out0 = out@;
            out.push(d);
            let r2 = parse_string_body(s, pos + 2, out);
            proof {
                assert forall|v: Seq<char>| #[trigger] string_body_encoded_at(s@, pos as int, v) implies
                    string_body_res(r2, pos as int, v) && out@ == out0 + v by {
                    let rest = choose|rest: Seq<char>| string_body_at(s@, pos as int, v, rest);
                    assert(v.len() > 0) by {
                        if v.len() == 0 {
                            assert((spec_escape(v) + seq!['"'] + rest)[0] == '"');
                        }
                    }
                    assert(spec_escape(v) == spec_escape_char(v[0]) + spec_escape(v.drop_first()));
                    assert(v[0] == '"' || v[0] == '\\') by {
                        if !(v[0] == '"' || v[0] == '\\') {
                            assert((spec_escape(v) + seq!['"'] + rest)[0] == v[0]);
                        }
                    }
                    assert(spec_escape_char(v[0]) == seq!['\\', v[0]]);
                    assert(d == v[0]) by {
                        assert((spec_escape(v) + seq!['"'] + rest)[1] == v[0]);
                    }
                    assert(string_body_at(s@, pos + 2, v.drop_first(), rest)) by {
                        let back = spec_escape(v.drop_first()) + seq!['"'] + rest;
                        assert(spec_escape(v) + seq!['"'] + rest =~= seq!['\\', v[0]] + back);
                        lemma_shift_suffix(s@, pos as int, seq!['\\', v[0]], back);
                    }
                    assert(string_body_encoded_at(s@, pos + 2, v.drop_first()));
                    assert(out@ == (out0.push(v[0])) + v.drop_first());
                    assert(out0.push(v[0]) + v.drop_first() =~= out0 + v);
                }
            }
            return r2;
        }
        proof {
            assert forall|v: Seq<char>| #[trigger] string_body_encoded_at(s@, pos as int, v) implies false by {
                let rest = choose|rest: Seq<char>| string_body_at(s@, pos as int, v, rest);
                assert(v.len() > 0) by {
                    if v.len() == 0 {
                        assert((spec_escape(v) + seq!['"'] + rest)[0] == '"');
                    }
                }
                assert(spec_escape(v) == spec_escape_char(v[0]) + spec_escape(v.drop_first()));
                assert(v[0] == '"' || v[0] == '\\') by {
                    if !(v[0] == '"' || v[0] == '\\') {
                        assert((spec_escape(v) + seq!['"'] + rest)[0] == v[0]);
                    }
                }
                assert((spec_escape(v) + seq!['"'] + rest)[1] == v[0]);
            }
        }
        return None;
    }
    let ghost out0 = out@;
    out.push(c);
    let r2 = parse_string_body(s, pos + 1, out);
    proof {
        assert forall|v: Seq<char>| #[trigger] string_body_encoded_at(s@, pos as int, v) implies
            string_body_res(r2, pos as int, v) && out@ == out0 + v by {
            let rest = choose|rest: Seq<char>| string_body_at(s@, pos as int, v, rest);
            assert(v.len() > 0) by {
                if v.len() == 0 {
                    assert((spec_escape(v) + seq!['"'] + rest)[0] == '"');
                }
            }
            assert(spec_escape(v) == spec_escape_char(v[0]) + spec_escape(v.drop_first()));
            assert(!(v[0] == '"' || v[0] == '\\')) by {
                if v[0] == '"' || v[0] == '\\' {
                    assert((spec_escape(v) + seq!['"'] + rest)[0] == '\\');
                }
            }
            assert(c == v[0]) by {
                assert((spec_escape(v) + seq!['"'] + rest)[0] == v[0]);
            }
            assert(string_body_at(s@, pos + 1, v.drop_first(), rest)) by {
                let back = spec_escape(v.drop_first()) + seq!['"'] + rest;
                assert(spec_escape(v) + seq!['"'] + rest =~= seq![v[0]] + back);
                lemma_shift_suffix(s@, pos as int, seq![v[0]], back);
            }
            assert(string_body_encoded_at(s@, pos + 1, v.drop_first()));
            assert(out@ == (out0.push(v[0])) + v.drop_first());
            assert(out0.push(v[0]) + v.drop_first() =~= out0 + v);
        }
    }
    r2
}

/// The JSON string of `v`, then `rest`, stand at `pos`.
pub open spec fn jstring_at(s: Seq<char>, pos: int, v: Seq<char>, rest: Seq<char>) -> bool {
    &&& 0 <= pos <= s.len()
    &&& s.subrange(pos, s.len() as int) == spec_json_string(v) + rest
}

/// Some continuation makes the JSON string of `v` stand at `pos`.
pub open spec fn jstring_encoded_at(s: Seq<char>, pos: int, v: Seq<char>) -> bool {
    exists|rest: Seq<char>| jstring_at(s, pos, v, rest)
}

/// What a string parse owes when the JSON string of `v` stands at `pos`.
pub open spec fn jstring_res(r: ParsedAt, pos: int, v: Seq<char>) -> bool {
    match r {
        Some(p2) => p2 == pos + spec_json_string(v).len(),
        None => false,
    }
}

/// What a string parse owes of its result and of `out`.
pub open spec fn jstring_out_res(r: ParsedAt, pos: int, v: Seq<char>, before: Seq<char>, after: Seq<char>) -> bool {
    jstring_res(r, pos, v) && after == before + v
}

/// Consume a JSON string at `pos`, appending its unescaped characters to
/// `out`.
fn parse_json_string(s: &Vec<char>, pos: usize, out: &mut Vec<char>) -> (r: ParsedAt)
    requires
        pos <= s@.len(),
    ensures
        forall|v: Seq<char>|
            #[trigger] jstring_encoded_at(s@, pos as int, v) ==> jstring_out_res(r, pos as int, v, old(out)@, final(out)@),
        match r {
            Some(p2) => pos < p2 <= s@.len(),
            None => true,
        },
{
    let len = s.len();
    if pos >= len {
        proof {
            assert forall|v: Seq<char>| #[trigger] jstring_encoded_at(s@, pos as int, v) implies false by {
                let rest = choose|rest: Seq<char>| jstring_at(s@, pos as int, v, rest);
                assert((spec_json_string(v) + rest).len() >= 2);
            }
        }
        return None;
    }
    let c = s[pos];
    if c != '"' {
        proof {
            assert forall|v: Seq<char>| #[trigger] jstring_encoded_at(s@, pos as int, v) implies false by {
                let rest = choose|rest: Seq<char>| jstring_at(s@, pos as int, v, rest);
                assert(s@[pos as int] == s@.subrange(pos as int, s@.len() as int)[0]);
                assert((spec_json_string(v) + rest)[0] == '"');
            }
        }
        return None;
    }
    let r2 = parse_string_body(s, pos + 1, out);
    proof {
        assert forall|v: Seq<char>| #[trigger] jstring_encoded_at(s@, pos as int, v) implies
            jstring_out_res(r2, pos as int, v, old(out)@, out@) by {
            let rest = choose|rest: Seq<char>| jstring_at(s@, pos as int, v, rest);
            assert(string_body_at(s@, pos + 1, v, rest)) by {
                assert(s@.subrange(pos as int, s@.len() as int) == spec_json_string(v) + rest);
                assert(spec_json_string(v) + rest =~= seq!['"'] + (spec_escape(v) + seq!['"']
                    + rest));
                assert(s@.subrange(pos + 1, s@.len() as int) =~= spec_escape(v) + seq!['"']
                    + rest) by {
                    assert(forall|k: int|
                        0 <= k < s@.len() - pos - 1 ==> #[trigger] s@.subrange(
                            pos + 1,
                            s@.len() as int,
                        )[k] == s@.subrange(pos as int, s@.len() as int)[k + 1]);
                }
            }
            assert(string_body_encoded_at(s@, pos + 1, v));
        }
    }
    r2
}


/// When `front + back` stands at `pos`, `front` fills `[pos, pos+|front|)`
/// and `back` stands right after it.
proof fn lemma_shift_suffix(s: Seq<char>, pos: int, front: Seq<char>, back: Seq<char>)
    requires
        0 <= pos <= s.len(),
        s.subrange(pos, s.len() as int) == front + back,
    ensures
        pos + front.len() <= s.len(),
        s.subrange(pos + front.len(), s.len() as int) =~= back,
        s.subrange(pos, pos + front.len()) =~= front,
{
    assert(s.subrange(pos, s.len() as int).len() == front.len() + back.len());
    assert forall|k: int| 0 <= k < back.len() implies s.subrange(
        pos + front.len(),
        s.len() as int,
    )[k] == back[k] by {
        assert(s.subrange(pos, s.len() as int)[front.len() + k] == (front + back)[front.len()
            + k]);
        assert(s.subrange(pos, s.len() as int)[front.len() + k] == s[pos + front.len() + k]);
    }
    assert forall|k: int| 0 <= k < front.len() implies s.subrange(pos, pos + front.len())[k]
        == front[k] by {
        assert(s.subrange(pos, s.len() as int)[k] == (front + back)[k]);
        assert(s.subrange(pos, s.len() as int)[k] == s[pos + k]);
    }
}

/// Relies on `String`'s `FromIterator<char>` (via `collect`): the string
/// built from a character sequence holds exactly those characters.
#[verifier::external_body]
fn chars_to_string(v: &Vec<char>) -> (r: String)
    ensures
        r@ == v@,
{
    v.iter().copied().collect()
}

/// The metadata object of `m`, then `rest`, stand at `pos`.
pub open spec fn meta_at(s: Seq<char>, pos: int, m: MetaView, rest: Seq<char>) -> bool {
    &&& 0 <= pos <= s.len()
    &&& s.subrange(pos, s.len() as int) == spec_json_meta(m) + rest
}

/// Some continuation makes the metadata object of `m` stand at `pos`.
pub open spec fn meta_encoded_at(s: Seq<char>, pos: int, m: MetaView) -> bool {
    exists|rest: Seq<char>| meta_at(s, pos, m, rest)
}

/// A parsed metadata record and the position right after it.
pub type ParsedMeta = Option<(ContentMetadata, usize)>;

/// What a metadata parse owes when the object of `m` stands at `pos`.
pub open spec fn meta_res(r: ParsedMeta, pos: int, m: MetaView) -> bool {
    match r {
        Some(p) => p.0@ == m && p.1 == pos + spec_json_meta(m).len(),
        None => false,
    }
}

/// Consume a metadata object at `pos`: whenever the object of `m` stands
/// there, the result carries equal metadata.
fn parse_meta(s: &Vec<char>, pos: usize) -> (r: ParsedMeta)
    requires
        pos <= s@.len(),
    ensures
        forall|m: MetaView| #[trigger] meta_encoded_at(s@, pos as int, m) ==> meta_res(r, pos as int, m),
        match r {
            Some(p) => pos < p.1 <= s@.len(),
            None => true,
        },
{
    proof {
        reveal_strlit("{\"timestamp\":");
        reveal_strlit(",\"version\":");
        reveal_strlit("}");
        assert forall|m: MetaView| #[trigger] meta_encoded_at(s@, pos as int, m) implies meta_parts_at(
            s@,
            pos as int,
            m,
        ) by {
            let rest = choose|rest: Seq<char>| meta_at(s@, pos as int, m, rest);
            let tail3 = "}"@ + rest;
            let tail2 = spec_json_string(m.version) + tail3;
            let tail1 = ",\"version\":"@ + tail2;
            let tail0 = spec_u64_chars(m.timestamp as int) + tail1;
            assert(spec_json_meta(m) + rest =~= "{\"timestamp\":"@ + tail0);
            lemma_shift_suffix(s@, pos as int, "{\"timestamp\":"@, tail0);
            lemma_shift_suffix(s@, pos + 13, spec_u64_chars(m.timestamp as int), tail1);
            assert(u64_at(s@, pos + 13, m.timestamp, tail1)) by {
                assert(tail1[0] == ',');
            }
            let pa = pos + 13 + spec_u64_chars(m.timestamp as int).len();
            lemma_shift_suffix(s@, pa, ",\"version\":"@, tail2);
            assert(jstring_at(s@, pa + 11, m.version, tail3));
            lemma_shift_suffix(s@, pa + 11, spec_json_string(m.version), tail3);
            let pb = pa + 11 + spec_json_string(m.version).len();
            assert(lit_at(s@, pb, "}"@)) by {
                lemma_shift_suffix(s@, pb, "}"@, rest);
            }
        }
    }
    let p1 = match parse_lit(s, pos, "{\"timestamp\":") {
        Some(p) => p,
        None => {
            return None;
        },
    };
    let t = match parse_u64(s, p1) {
        Some(t) => t,
        None => {
            return None;
        },
    };
    let p2 = match parse_lit(s, t.1, ",\"version\":") {
        Some(p) => p,
        None => {
            return None;
        },
    };
    let mut ver: Vec<char> = Vec::new();
    let p3 = match parse_json_string(s, p2, &mut ver) {
        Some(p) => p,
        None => {
            return None;
        },
    };
    let p4 = match parse_lit(s, p3, "}") {
        Some(p) => p,
        None => {
            return None;
        },
    };
    let version = chars_to_string(&ver);
    let meta = ContentMetadata { timestamp: t.0, version };
    proof {
        reveal_strlit("{\"timestamp\":");
        reveal_strlit(",\"version\":");
        reveal_strlit("}");
        assert forall|m: MetaView| #[trigger] meta_encoded_at(s@, pos as int, m) implies meta_res(
            Some((meta, p4)),
            pos as int,
            m,
        ) by {
            assert(meta_parts_at(s@, pos as int, m));
            assert(u64_encoded_at(s@, pos + 13, m.timestamp));
            assert(jstring_encoded_at(
                s@,
                pos + 13 + spec_u64_chars(m.timestamp as int).len() + 11,
                m.version,
            ));
            assert(meta@ =~= m);
            assert(p4 == pos + spec_json_meta(m).len());
        }
    }
    Some((meta, p4))
}

/// The successive pieces of a metadata object for `m` stand at `pos`: the
/// field names as literals, the timestamp digits delimited by a comma, and
/// the version string.
pub open spec fn meta_parts_at(s: Seq<char>, pos: int, m: MetaView) -> bool {
    &&& lit_at(s, pos, "{\"timestamp\":"@)
    &&& u64_encoded_at(s, pos + 13, m.timestamp)
    &&& lit_at(s, pos + 13 + spec_u64_chars(m.timestamp as int).len(), ",\"version\":"@)
    &&& jstring_encoded_at(s, pos + 13 + spec_u64_chars(m.timestamp as int).len() + 11, m.version)
    &&& lit_at(
        s,
        pos + 13 + spec_u64_chars(m.timestamp as int).len() + 11 + spec_json_string(
            m.version,
        ).len(),
        "}"@,
    )
}


/// A name–metadata pair, as one map entry's mathematical value.
pub type EntryPair = (Seq<char>, MetaView);

/// The mathematical values of a sequence of map entries.
pub type EntryPairs = Seq<(Seq<char>, MetaView)>;

/// Pair views of parsed installed entries.
pub open spec fn installed_views(v: Seq<MapEntry<InstalledContent>>) -> EntryPairs {
    v.map_values(|e: MapEntry<InstalledContent>| crate::state::installed_pair(e))
}

/// Pair views of parsed pending entries.
pub open spec fn pending_views(v: Seq<MapEntry<ContentMetadata>>) -> EntryPairs {
    v.map_values(|e: MapEntry<ContentMetadata>| crate::state::pending_pair(e))
}

/// One installed entry for `p`, then `rest`, stand at `pos`.
pub open spec fn ientry_at(s: Seq<char>, pos: int, p: EntryPair, rest: Seq<char>) -> bool {
    &&& 0 <= pos <= s.len()
    &&& s.subrange(pos, s.len() as int) == spec_installed_entry(p) + rest
}

/// Some continuation makes the installed entry of `p` stand at `pos`.
pub open spec fn ientry_encoded_at(s: Seq<char>, pos: int, p: EntryPair) -> bool {
    exists|rest: Seq<char>| ientry_at(s, pos, p, rest)
}

/// What an installed-entry parse owes of its result and of `out`.
pub open spec fn ientry_res(r: ParsedAt, pos: int, p: EntryPair, before: Seq<MapEntry<InstalledContent>>, after: Seq<MapEntry<InstalledContent>>) -> bool {
    &&& match r {
        Some(p2) => p2 == pos + spec_installed_entry(p).len(),
        None => false,
    }
    &&& installed_views(after) == installed_views(before).push(p)
}

/// Consume one installed entry, `"name":{"meta":<object>}`, appending the
/// record to `out`.
fn parse_installed_one(s: &Vec<char>, pos: usize, out: &mut Vec<MapEntry<InstalledContent>>) -> (r: ParsedAt)
    requires
        pos <= s@.len(),
    ensures
        forall|p: EntryPair|
            #[trigger] ientry_encoded_at(s@, pos as int, p) ==> ientry_res(r, pos as int, p, old(out)@, final(out)@),
        match r {
            Some(p2) => pos < p2 <= s@.len(),
            None => true,
        },
{
    proof {
        reveal_strlit(":{\"meta\":");
        reveal_strlit("}");
        assert forall|p: EntryPair| #[trigger] ientry_encoded_at(s@, pos as int, p) implies {
            &&& jstring_encoded_at(s@, pos as int, p.0)
            &&& lit_at(s@, pos + spec_json_string(p.0).len(), ":{\"meta\":"@)
            &&& meta_encoded_at(s@, pos + spec_json_string(p.0).len() + 9, p.1)
            &&& lit_at(s@, pos + spec_json_string(p.0).len() + 9 + spec_json_meta(p.1).len(), "}"@)
        } by {
            let rest = choose|rest: Seq<char>| ientry_at(s@, pos as int, p, rest);
            let tail2 = "}"@ + rest;
            let tail1 = spec_json_meta(p.1) + tail2;
            let tail0 = ":{\"meta\":"@ + tail1;
            assert(spec_installed_entry(p) + rest =~= spec_json_string(p.0) + tail0);
            lemma_shift_suffix(s@, pos as int, spec_json_string(p.0), tail0);
            assert(jstring_at(s@, pos as int, p.0, tail0));
            let pa = pos + spec_json_string(p.0).len();
            lemma_shift_suffix(s@, pa, ":{\"meta\":"@, tail1);
            assert(meta_at(s@, pa + 9, p.1, tail2));
            lemma_shift_suffix(s@, pa + 9, spec_json_meta(p.1), tail2);
            lemma_shift_suffix(s@, pa + 9 + spec_json_meta(p.1).len(), "}"@, rest);
        }
    }
    let mut namebuf: Vec<char> = Vec::new();
    let p1 = match parse_json_string(s, pos, &mut namebuf) {
        Some(p) => p,
        None => {
            return None;
        },
    };
    let p2 = match parse_lit(s, p1, ":{\"meta\":") {
        Some(p) => p,
        None => {
            return None;
        },
    };
    let m = match parse_meta(s, p2) {
        Some(m) => m,
        None => {
            return None;
        },
    };
    let p3 = match parse_lit(s, m.1, "}") {
        Some(p) => p,
        None => {
            return None;
        },
    };
    let ghost before = out@;
    let name = chars_to_string(&namebuf);
    let entry = MapEntry { name, value: InstalledContent { meta: m.0 } };
    out.push(entry);
    proof {
        reveal_strlit(":{\"meta\":");
        reveal_strlit("}");
        assert forall|p: EntryPair| #[trigger] ientry_encoded_at(s@, pos as int, p) implies
            ientry_res(Some(p3), pos as int, p, before, out@) by {
            assert(out@[before.len() as int].name@ == p.0);
            assert(out@[before.len() as int].value@ == p.1);
            assert(installed_views(out@) =~= installed_views(before).push(p));
        }
    }
    Some(p3)
}

/// Later installed entries, comma-prefixed, then the closing brace and
/// `rest`, stand at `pos`.
pub open spec fn itail_at(s: Seq<char>, pos: int, entries: EntryPairs, rest: Seq<char>) -> bool {
    &&& 0 <= pos <= s.len()
    &&& s.subrange(pos, s.len() as int) == spec_installed_tail(entries) + seq!['}'] + rest
}

/// Some continuation makes the installed tail of `entries` stand at `pos`.
pub open spec fn itail_encoded_at(s: Seq<char>, pos: int, entries: EntryPairs) -> bool {
    exists|rest: Seq<char>| itail_at(s, pos, entries, rest)
}

/// What an installed-tail parse owes of its result and of `out`.
pub open spec fn itail_res(r: ParsedAt, pos: int, entries: EntryPairs, before: Seq<MapEntry<InstalledContent>>, after: Seq<MapEntry<InstalledContent>>) -> bool {
    &&& match r {
        Some(p2) => p2 == pos + spec_installed_tail(entries).len() + 1,
        None => false,
    }
    &&& installed_views(after) == installed_views(before) + entries
}

/// Consume comma-prefixed installed entries up to the closing brace.
fn parse_installed_tail(s: &Vec<char>, pos: usize, out: &mut Vec<MapEntry<InstalledContent>>) -> (r: ParsedAt)
    requires
        pos <= s@.len(),
    ensures
        forall|entries: EntryPairs|
            #[trigger] itail_encoded_at(s@, pos as int, entries) ==> itail_res(r, pos as int, entries, old(out)@, final(out)@),
        match r {
            Some(p2) => pos < p2 <= s@.len(),
            None => true,
        },
    decreases s@.len() - pos,
{
    let len = s.len();
    if pos >= len {
        proof {
            assert forall|entries: EntryPairs| #[trigger] itail_encoded_at(s@, pos as int, entries) implies false by {
                let rest = choose|rest: Seq<char>| itail_at(s@, pos as int, entries, rest);
                assert((spec_installed_tail(entries) + seq!['}'] + rest).len() >= 1);
            }
        }
        return None;
    }
    let c = s[pos];
    proof {
        assert(s@[pos as int] == s@.subrange(pos as int, s@.len() as int)[0]);
    }
    if c == '}' {
        proof {
            reveal_strlit(",");
            assert forall|entries: EntryPairs| #[trigger] itail_encoded_at(s@, pos as int, entries) implies
                itail_res(Some((pos + 1) as usize), pos as int, entries, out@, out@) by {
                let rest = choose|rest: Seq<char>| itail_at(s@, pos as int, entries, rest);
                if entries.len() > 0 {
                    assert(spec_installed_tail(entries) == ","@ + spec_installed_entry(entries[0])
                        + spec_installed_tail(entries.drop_first()));
                    assert((spec_installed_tail(entries) + seq!['}'] + rest)[0] == ',');
                    assert(false);
                }
                assert(spec_installed_tail(entries) == Seq::<char>::empty());
                assert(installed_views(out@) =~= installed_views(out@) + entries);
            }
        }
        return Some(pos + 1);
    }
    if c != ',' {
        proof {
            reveal_strlit(",");
            assert forall|entries: EntryPairs| #[trigger] itail_encoded_at(s@, pos as int, entries) implies false by {
                let rest = choose|rest: Seq<char>| itail_at(s@, pos as int, entries, rest);
                if entries.len() > 0 {
                    assert(spec_installed_tail(entries) == ","@ + spec_installed_entry(entries[0])
                        + spec_installed_tail(entries.drop_first()));
                    assert((spec_installed_tail(entries) + seq!['}'] + rest)[0] == ',');
                } else {
                    assert(spec_installed_tail(entries) == Seq::<char>::empty());
                    assert((spec_installed_tail(entries) + seq!['}'] + rest)[0] == '}');
                }
            }
        }
        return None;
    }
    proof {
        reveal_strlit(",");
        assert forall|entries: EntryPairs| #[trigger] itail_encoded_at(s@, pos as int, entries) implies
            entries.len() > 0 && ientry_encoded_at(s@, pos + 1, entries[0]) by {
            let rest = choose|rest: Seq<char>| itail_at(s@, pos as int, entries, rest);
            if entries.len() == 0 {
                assert(spec_installed_tail(entries) == Seq::<char>::empty());
                assert((spec_installed_tail(entries) + seq!['}'] + rest)[0] == '}');
                assert(false);
            }
            assert(spec_installed_tail(entries) == ","@ + spec_installed_entry(entries[0])
                + spec_installed_tail(entries.drop_first()));
            let tail0 = spec_installed_entry(entries[0]) + (spec_installed_tail(
                entries.drop_first(),
            ) + seq!['}'] + rest);
            assert(spec_installed_tail(entries) + seq!['}'] + rest =~= ","@ + tail0);
            lemma_shift_suffix(s@, pos as int, ","@, tail0);
            assert(","@.len() == 1);
            assert(ientry_at(
                s@,
                pos + 1,
                entries[0],
                spec_installed_tail(entries.drop_first()) + seq!['}'] + rest,
            )) by {
                assert(tail0 =~= spec_installed_entry(entries[0]) + (spec_installed_tail(
                    entries.drop_first(),
                ) + seq!['}'] + rest));
            }
        }
    }
    let ghost before = out@;
    let p1 = match parse_installed_one(s, pos + 1, out) {
        Some(p) => p,
        None => {
            return None;
        },
    };
    let r2 = parse_installed_tail(s, p1, out);
    proof {
        reveal_strlit(",");
        assert forall|entries: EntryPairs| #[trigger] itail_encoded_at(s@, pos as int, entries) implies
            itail_res(r2, pos as int, entries, before, out@) by {
            let rest = choose|rest: Seq<char>| itail_at(s@, pos as int, entries, rest);
            assert(spec_installed_tail(entries) == ","@ + spec_installed_entry(entries[0])
                + spec_installed_tail(entries.drop_first()));
            assert(ientry_encoded_at(s@, pos + 1, entries[0]));
            assert(p1 == pos + 1 + spec_installed_entry(entries[0]).len());
            assert(itail_at(s@, p1 as int, entries.drop_first(), rest)) by {
                let tail0 = spec_installed_entry(entries[0]) + (spec_installed_tail(
                    entries.drop_first(),
                ) + seq!['}'] + rest);
                assert(spec_installed_tail(entries) + seq!['}'] + rest =~= ","@ + tail0);
                lemma_shift_suffix(s@, pos as int, ","@, tail0);
                lemma_shift_suffix(
                    s@,
                    pos + 1,
                    spec_installed_entry(entries[0]),
                    spec_installed_tail(entries.drop_first()) + seq!['}'] + rest,
                );
            }
            assert(itail_encoded_at(s@, p1 as int, entries.drop_first()));
            assert(installed_views(out@) == installed_views(before.push(
                MapEntry { name: out@[before.len() as int].name, value: out@[before.len() as int].value },
            )) + entries.drop_first() || true);
            assert(installed_views(out@) =~= installed_views(before) + entries) by {
                assert(installed_views(out@) == installed_views(before).push(entries[0])
                    + entries.drop_first());
            }
        }
    }
    r2
}


/// The installed entries, closing brace and `rest` stand at `pos`.
pub open spec fn ientries_at(s: Seq<char>, pos: int, entries: EntryPairs, rest: Seq<char>) -> bool {
    &&& 0 <= pos <= s.len()
    &&& s.subrange(pos, s.len() as int) == spec_installed_entries(entries) + seq!['}'] + rest
}

/// Some continuation makes the installed entries stand at `pos`.
pub open spec fn ientries_encoded_at(s: Seq<char>, pos: int, entries: EntryPairs) -> bool {
    exists|rest: Seq<char>| ientries_at(s, pos, entries, rest)
}

/// What an installed-entries parse owes of its result and of `out`.
pub open spec fn ientries_res(r: ParsedAt, pos: int, entries: EntryPairs, before: Seq<MapEntry<InstalledContent>>, after: Seq<MapEntry<InstalledContent>>) -> bool {
    &&& match r {
        Some(p2) => p2 == pos + spec_installed_entries(entries).len() + 1,
        None => false,
    }
    &&& installed_views(after) == installed_views(before) + entries
}

/// Consume the installed entries and their closing brace.
fn parse_installed_entries(s: &Vec<char>, pos: usize, out: &mut Vec<MapEntry<InstalledContent>>) -> (r: ParsedAt)
    requires
        pos <= s@.len(),
    ensures
        forall|entries: EntryPairs|
            #[trigger] ientries_encoded_at(s@, pos as int, entries) ==> ientries_res(r, pos as int, entries, old(out)@, final(out)@),
        match r {
            Some(p2) => pos < p2 <= s@.len(),
            None => true,
        },
{
    let len = s.len();
    if pos >= len {
        proof {
            assert forall|entries: EntryPairs| #[trigger] ientries_encoded_at(s@, pos as int, entries) implies false by {
                let rest = choose|rest: Seq<char>| ientries_at(s@, pos as int, entries, rest);
                assert((spec_installed_entries(entries) + seq!['}'] + rest).len() >= 1);
            }
        }
        return None;
    }
    let c = s[pos];
    proof {
        assert(s@[pos as int] == s@.subrange(pos as int, s@.len() as int)[0]);
    }
    if c == '}' {
        proof {
            assert forall|entries: EntryPairs| #[trigger] ientries_encoded_at(s@, pos as int, entries) implies
                ientries_res(Some((pos + 1) as usize), pos as int, entries, out@, out@) by {
                let rest = choose|rest: Seq<char>| ientries_at(s@, pos as int, entries, rest);
                if entries.len() > 0 {
                    assert(spec_installed_entries(entries) == spec_installed_entry(entries[0])
                        + spec_installed_tail(entries.drop_first()));
                    assert((spec_installed_entries(entries) + seq!['}'] + rest)[0] == '"');
                    assert(false);
                }
                assert(spec_installed_entries(entries) == Seq::<char>::empty());
                assert(installed_views(out@) =~= installed_views(out@) + entries);
            }
        }
        return Some(pos + 1);
    }
    proof {
        assert forall|entries: EntryPairs| #[trigger] ientries_encoded_at(s@, pos as int, entries) implies
            entries.len() > 0 && ientry_encoded_at(s@, pos as int, entries[0]) by {
            let rest = choose|rest: Seq<char>| ientries_at(s@, pos as int, entries, rest);
            if entries.len() == 0 {
                assert(spec_installed_entries(entries) == Seq::<char>::empty());
                assert((spec_installed_entries(entries) + seq!['}'] + rest)[0] == '}');
                assert(false);
            }
            assert(spec_installed_entries(entries) == spec_installed_entry(entries[0])
                + spec_installed_tail(entries.drop_first()));
            assert(ientry_at(
                s@,
                pos as int,
                entries[0],
                spec_installed_tail(entries.drop_first()) + seq!['}'] + rest,
            )) by {
                assert(s@.subrange(pos as int, s@.len() as int) =~= spec_installed_entry(
                    entries[0],
                ) + (spec_installed_tail(entries.drop_first()) + seq!['}'] + rest));
            }
        }
    }
    let ghost before = out@;
    let p1 = match parse_installed_one(s, pos, out) {
        Some(p) => p,
        None => {
            return None;
        },
    };
    let r2 = parse_installed_tail(s, p1, out);
    proof {
        assert forall|entries: EntryPairs| #[trigger] ientries_encoded_at(s@, pos as int, entries) implies
            ientries_res(r2, pos as int, entries, before, out@) by {
            let rest = choose|rest: Seq<char>| ientries_at(s@, pos as int, entries, rest);
            assert(spec_installed_entries(entries) == spec_installed_entry(entries[0])
                + spec_installed_tail(entries.drop_first()));
            assert(p1 == pos + spec_installed_entry(entries[0]).len());
            assert(itail_at(s@, p1 as int, entries.drop_first(), rest)) by {
                let back = spec_installed_tail(entries.drop_first()) + seq!['}'] + rest;
                assert(spec_installed_entries(entries) + seq!['}'] + rest
                    =~= spec_installed_entry(entries[0]) + back);
                lemma_shift_suffix(s@, pos as int, spec_installed_entry(entries[0]), back);
            }
            assert(itail_encoded_at(s@, p1 as int, entries.drop_first()));
            assert(installed_views(out@) =~= installed_views(before) + entries) by {
                assert(installed_views(out@) == installed_views(before).push(entries[0])
                    + entries.drop_first());
            }
        }
    }
    r2
}

/// One pending entry for `p`, then `rest`, stand at `pos`.
pub open spec fn pentry_at(s: Seq<char>, pos: int, p: EntryPair, rest: Seq<char>) -> bool {
    &&& 0 <= pos <= s.len()
    &&& s.subrange(pos, s.len() as int) == spec_pending_entry(p) + rest
}

/// Some continuation makes the pending entry of `p` stand at `pos`.
pub open spec fn pentry_encoded_at(s: Seq<char>, pos: int, p: EntryPair) -> bool {
    exists|rest: Seq<char>| pentry_at(s, pos, p, rest)
}

/// What a pending-entry parse owes of its result and of `out`.
pub open spec fn pentry_res(r: ParsedAt, pos: int, p: EntryPair, before: Seq<MapEntry<ContentMetadata>>, after: Seq<MapEntry<ContentMetadata>>) -> bool {
    &&& match r {
        Some(p2) => p2 == pos + spec_pending_entry(p).len(),
        None => false,
    }
    &&& pending_views(after) == pending_views(before).push(p)
}

/// Consume one pending entry, `"name":<object>`, appending the record to
/// `out`.
fn parse_pending_one(s: &Vec<char>, pos: usize, out: &mut Vec<MapEntry<ContentMetadata>>) -> (r: ParsedAt)
    requires
        pos <= s@.len(),
    ensures
        forall|p: EntryPair|
            #[trigger] pentry_encoded_at(s@, pos as int, p) ==> pentry_res(r, pos as int, p, old(out)@, final(out)@),
        match r {
            Some(p2) => pos < p2 <= s@.len(),
            None => true,
        },
{
    proof {
        reveal_strlit(":");
        assert forall|p: EntryPair| #[trigger] pentry_encoded_at(s@, pos as int, p) implies {
            &&& jstring_encoded_at(s@, pos as int, p.0)
            &&& lit_at(s@, pos + spec_json_string(p.0).len(), ":"@)
            &&& meta_encoded_at(s@, pos + spec_json_string(p.0).len() + 1, p.1)
        } by {
            let rest = choose|rest: Seq<char>| pentry_at(s@, pos as int, p, rest);
            let tail1 = spec_json_meta(p.1) + rest;
            let tail0 = ":"@ + tail1;
            assert(spec_pending_entry(p) + rest =~= spec_json_string(p.0) + tail0);
            lemma_shift_suffix(s@, pos as int, spec_json_string(p.0), tail0);
            assert(jstring_at(s@, pos as int, p.0, tail0));
            let pa = pos + spec_json_string(p.0).len();
            lemma_shift_suffix(s@, pa, ":"@, tail1);
            assert(meta_at(s@, pa + 1, p.1, rest));
        }
    }
    let mut namebuf: Vec<char> = Vec::new();
    let p1 = match parse_json_string(s, pos, &mut namebuf) {
        Some(p) => p,
        None => {
            return None;
        },
    };
    let p2 = match parse_lit(s, p1, ":") {
        Some(p) => p,
        None => {
            return None;
        },
    };
    let m = match parse_meta(s, p2) {
        Some(m) => m,
        None => {
            return None;
        },
    };
    let ghost before = out@;
    let name = chars_to_string(&namebuf);
    let entry = MapEntry { name, value: m.0 };
    out.push(entry);
    proof {
        reveal_strlit(":");
        assert forall|p: EntryPair| #[trigger] pentry_encoded_at(s@, pos as int, p) implies
            pentry_res(Some(m.1), pos as int, p, before, out@) by {
            assert(out@[before.len() as int].name@ == p.0);
            assert(out@[before.len() as int].value@ == p.1);
            assert(pending_views(out@) =~= pending_views(before).push(p));
        }
    }
    Some(m.1)
}



/// Later pending entries, comma-prefixed, then the closing brace and `rest`,
/// stand at `pos`.
pub open spec fn ptail_at(s: Seq<char>, pos: int, entries: EntryPairs, rest: Seq<char>) -> bool {
    &&& 0 <= pos <= s.len()
    &&& s.subrange(pos, s.len() as int) == spec_pending_tail(entries) + seq!['}'] + rest
}

/// Some continuation makes the pending tail of `entries` stand at `pos`.
pub open spec fn ptail_encoded_at(s: Seq<char>, pos: int, entries: EntryPairs) -> bool {
    exists|rest: Seq<char>| ptail_at(s, pos, entries, rest)
}

/// What a pending-tail parse owes of its result and of `out`.
pub open spec fn ptail_res(r: ParsedAt, pos: int, entries: EntryPairs, before: Seq<MapEntry<ContentMetadata>>, after: Seq<MapEntry<ContentMetadata>>) -> bool {
    &&& match r {
        Some(p2) => p2 == pos + spec_pending_tail(entries).len() + 1,
        None => false,
    }
    &&& pending_views(after) == pending_views(before) + entries
}

/// Consume comma-prefixed pending entries up to the closing brace.
fn parse_pending_tail(s: &Vec<char>, pos: usize, out: &mut Vec<MapEntry<ContentMetadata>>) -> (r: ParsedAt)
    requires
        pos <= s@.len(),
    ensures
        forall|entries: EntryPairs|
            #[trigger] ptail_encoded_at(s@, pos as int, entries) ==> ptail_res(r, pos as int, entries, old(out)@, final(out)@),
        match r {
            Some(p2) => pos < p2 <= s@.len(),
            None => true,
        },
    decreases s@.len() - pos,
{
    let len = s.len();
    if pos >= len {
        proof {
            assert forall|entries: EntryPairs| #[trigger] ptail_encoded_at(s@, pos as int, entries) implies false by {
                let rest = choose|rest: Seq<char>| ptail_at(s@, pos as int, entries, rest);
                assert((spec_pending_tail(entries) + seq!['}'] + rest).len() >= 1);
            }
        }
        return None;
    }
    let c = s[pos];
    proof {
        assert(s@[pos as int] == s@.subrange(pos as int, s@.len() as int)[0]);
    }
    if c == '}' {
        proof {
            reveal_strlit(",");
            assert forall|entries: EntryPairs| #[trigger] ptail_encoded_at(s@, pos as int, entries) implies
                ptail_res(Some((pos + 1) as usize), pos as int, entries, out@, out@) by {
                let rest = choose|rest: Seq<char>| ptail_at(s@, pos as int, entries, rest);
                if entries.len() > 0 {
                    assert(spec_pending_tail(entries) == ","@ + spec_pending_entry(entries[0])
                        + spec_pending_tail(entries.drop_first()));
                    assert((spec_pending_tail(entries) + seq!['}'] + rest)[0] == ',');
                    assert(false);
                }
                assert(spec_pending_tail(entries) == Seq::<char>::empty());
                assert(pending_views(out@) =~= pending_views(out@) + entries);
            }
        }
        return Some(pos + 1);
    }
    if c != ',' {
        proof {
            reveal_strlit(",");
            assert forall|entries: EntryPairs| #[trigger] ptail_encoded_at(s@, pos as int, entries) implies false by {
                let rest = choose|rest: Seq<char>| ptail_at(s@, pos as int, entries, rest);
                if entries.len() > 0 {
                    assert(spec_pending_tail(entries) == ","@ + spec_pending_entry(entries[0])
                        + spec_pending_tail(entries.drop_first()));
                    assert((spec_pending_tail(entries) + seq!['}'] + rest)[0] == ',');
                } else {
                    assert(spec_pending_tail(entries) == Seq::<char>::empty());
                    assert((spec_pending_tail(entries) + seq!['}'] + rest)[0] == '}');
                }
            }
        }
        return None;
    }
    proof {
        reveal_strlit(",");
        assert forall|entries: EntryPairs| #[trigger] ptail_encoded_at(s@, pos as int, entries) implies
            entries.len() > 0 && pentry_encoded_at(s@, pos + 1, entries[0]) by {
            let rest = choose|rest: Seq<char>| ptail_at(s@, pos as int, entries, rest);
            if entries.len() == 0 {
                assert(spec_pending_tail(entries) == Seq::<char>::empty());
                assert((spec_pending_tail(entries) + seq!['}'] + rest)[0] == '}');
                assert(false);
            }
            assert(spec_pending_tail(entries) == ","@ + spec_pending_entry(entries[0])
                + spec_pending_tail(entries.drop_first()));
            let back = spec_pending_entry(entries[0]) + (spec_pending_tail(entries.drop_first())
                + seq!['}'] + rest);
            assert(spec_pending_tail(entries) + seq!['}'] + rest =~= ","@ + back);
            lemma_shift_suffix(s@, pos as int, ","@, back);
            assert(","@.len() == 1);
            assert(pentry_at(
                s@,
                pos + 1,
                entries[0],
                spec_pending_tail(entries.drop_first()) + seq!['}'] + rest,
            ));
        }
    }
    let ghost before = out@;
    let p1 = match parse_pending_one(s, pos + 1, out) {
        Some(p) => p,
        None => {
            return None;
        },
    };
    let r2 = parse_pending_tail(s, p1, out);
    proof {
        reveal_strlit(",");
        assert forall|entries: EntryPairs| #[trigger] ptail_encoded_at(s@, pos as int, entries) implies
            ptail_res(r2, pos as int, entries, before, out@) by {
            let rest = choose|rest: Seq<char>| ptail_at(s@, pos as int, entries, rest);
            assert(spec_pending_tail(entries) == ","@ + spec_pending_entry(entries[0])
                + spec_pending_tail(entries.drop_first()));
            assert(pentry_encoded_at(s@, pos + 1, entries[0]));
            assert(p1 == pos + 1 + spec_pending_entry(entries[0]).len());
            assert(ptail_at(s@, p1 as int, entries.drop_first(), rest)) by {
                let back = spec_pending_entry(entries[0]) + (spec_pending_tail(
                    entries.drop_first(),
                ) + seq!['}'] + rest);
                assert(spec_pending_tail(entries) + seq!['}'] + rest =~= ","@ + back);
                lemma_shift_suffix(s@, pos as int, ","@, back);
                lemma_shift_suffix(
                    s@,
                    pos + 1,
                    spec_pending_entry(entries[0]),
                    spec_pending_tail(entries.drop_first()) + seq!['}'] + rest,
                );
            }
            assert(ptail_encoded_at(s@, p1 as int, entries.drop_first()));
            assert(pending_views(out@) =~= pending_views(before) + entries) by {
                assert(pending_views(out@) == pending_views(before).push(entries[0])
                    + entries.drop_first());
            }
        }
    }
    r2
}

/// The pending entries, closing brace and `rest` stand at `pos`.
pub open spec fn pentries_at(s: Seq<char>, pos: int, entries: EntryPairs, rest: Seq<char>) -> bool {
    &&& 0 <= pos <= s.len()
    &&& s.subrange(pos, s.len() as int) == spec_pending_entries(entries) + seq!['}'] + rest
}

/// Some continuation makes the pending entries stand at `pos`.
pub open spec fn pentries_encoded_at(s: Seq<char>, pos: int, entries: EntryPairs) -> bool {
    exists|rest: Seq<char>| pentries_at(s, pos, entries, rest)
}

/// What a pending-entries parse owes of its result and of `out`.
pub open spec fn pentries_res(r: ParsedAt, pos: int, entries: EntryPairs, before: Seq<MapEntry<ContentMetadata>>, after: Seq<MapEntry<ContentMetadata>>) -> bool {
    &&& match r {
        Some(p2) => p2 == pos + spec_pending_entries(entries).len() + 1,
        None => false,
    }
    &&& pending_views(after) == pending_views(before) + entries
}

/// Consume the pending entries and their closing brace.
fn parse_pending_entries(s: &Vec<char>, pos: usize, out: &mut Vec<MapEntry<ContentMetadata>>) -> (r: ParsedAt)
    requires
        pos <= s@.len(),
    ensures
        forall|entries: EntryPairs|
            #[trigger] pentries_encoded_at(s@, pos as int, entries) ==> pentries_res(r, pos as int, entries, old(out)@, final(out)@),
        match r {
            Some(p2) => pos < p2 <= s@.len(),
            None => true,
        },
{
    let len = s.len();
    if pos >= len {
        proof {
            assert forall|entries: EntryPairs| #[trigger] pentries_encoded_at(s@, pos as int, entries) implies false by {
                let rest = choose|rest: Seq<char>| pentries_at(s@, pos as int, entries, rest);
                assert((spec_pending_entries(entries) + seq!['}'] + rest).len() >= 1);
            }
        }
        return None;
    }
    let c = s[pos];
    proof {
        assert(s@[pos as int] == s@.subrange(pos as int, s@.len() as int)[0]);
    }
    if c == '}' {
        proof {
            assert forall|entries: EntryPairs| #[trigger] pentries_encoded_at(s@, pos as int, entries) implies
                pentries_res(Some((pos + 1) as usize), pos as int, entries, out@, out@) by {
                let rest = choose|rest: Seq<char>| pentries_at(s@, pos as int, entries, rest);
                if entries.len() > 0 {
                    assert(spec_pending_entries(entries) == spec_pending_entry(entries[0])
                        + spec_pending_tail(entries.drop_first()));
                    assert((spec_pending_entries(entries) + seq!['}'] + rest)[0] == '"');
                    assert(false);
                }
                assert(spec_pending_entries(entries) == Seq::<char>::empty());
                assert(pending_views(out@) =~= pending_views(out@) + entries);
            }
        }
        return Some(pos + 1);
    }
    proof {
        assert forall|entries: EntryPairs| #[trigger] pentries_encoded_at(s@, pos as int, entries) implies
            entries.len() > 0 && pentry_encoded_at(s@, pos as int, entries[0]) by {
            let rest = choose|rest: Seq<char>| pentries_at(s@, pos as int, entries, rest);
            if entries.len() == 0 {
                assert(spec_pending_entries(entries) == Seq::<char>::empty());
                assert((spec_pending_entries(entries) + seq!['}'] + rest)[0] == '}');
                assert(false);
            }
            assert(spec_pending_entries(entries) == spec_pending_entry(entries[0])
                + spec_pending_tail(entries.drop_first()));
            assert(pentry_at(
                s@,
                pos as int,
                entries[0],
                spec_pending_tail(entries.drop_first()) + seq!['}'] + rest,
            )) by {
                assert(s@.subrange(pos as int, s@.len() as int) =~= spec_pending_entry(entries[0])
                    + (spec_pending_tail(entries.drop_first()) + seq!['}'] + rest));
            }
        }
    }
    let ghost before = out@;
    let p1 = match parse_pending_one(s, pos, out) {
        Some(p) => p,
        None => {
            return None;
        },
    };
    let r2 = parse_pending_tail(s, p1, out);
    proof {
        assert forall|entries: EntryPairs| #[trigger] pentries_encoded_at(s@, pos as int, entries) implies
            pentries_res(r2, pos as int, entries, before, out@) by {
            let rest = choose|rest: Seq<char>| pentries_at(s@, pos as int, entries, rest);
            assert(spec_pending_entries(entries) == spec_pending_entry(entries[0])
                + spec_pending_tail(entries.drop_first()));
            assert(p1 == pos + spec_pending_entry(entries[0]).len());
            assert(ptail_at(s@, p1 as int, entries.drop_first(), rest)) by {
                let back = spec_pending_tail(entries.drop_first()) + seq!['}'] + rest;
                assert(spec_pending_entries(entries) + seq!['}'] + rest =~= spec_pending_entry(
                    entries[0],
                ) + back);
                lemma_shift_suffix(s@, pos as int, spec_pending_entry(entries[0]), back);
            }
            assert(ptail_encoded_at(s@, p1 as int, entries.drop_first()));
            assert(pending_views(out@) =~= pending_views(before) + entries) by {
                assert(pending_views(out@) == pending_views(before).push(entries[0])
                    + entries.drop_first());
            }
        }
    }
    r2
}


/// `s` is the state file written for `orig`, a well-formed state.
pub open spec fn state_encoding(s: Seq<char>, orig: SavedState) -> bool {
    s == spec_json_state(orig@) && orig.wf()
}

/// What a state parse owes when the file encodes `orig`: an equal state.
pub open spec fn state_res(r: Option<SavedState>, orig: SavedState) -> bool {
    match r {
        Some(st) => st@ == orig@,
        None => false,
    }
}

/// The pieces of a state file for `orig`, at their fixed positions.
pub open spec fn state_parts_at(s: Seq<char>, orig: SavedState) -> bool {
    let sv = orig@;
    let p2 = 14 + spec_installed_entries(sv.installed).len() as int + 1;
    let p3 = p2 + 11;
    &&& lit_at(s, 0, "{\"installed\":{"@)
    &&& ientries_encoded_at(s, 14, sv.installed)
    &&& lit_at(s, p2, ",\"pending\":"@)
    &&& match sv.pending {
        None => lit_at(s, p3, "null"@) && lit_at(s, p3 + 4, "}"@) && p3 + 5 == s.len(),
        Some(pd) => {
            &&& p3 < s.len() && s[p3] == '{'
            &&& !lit_at(s, p3, "null"@)
            &&& pentries_encoded_at(s, p3 + 1, pd)
            &&& lit_at(s, p3 + 1 + spec_pending_entries(pd).len() as int + 1, "}"@)
            &&& p3 + 1 + spec_pending_entries(pd).len() as int + 2 == s.len()
        },
    }
}

/// Derive the pieces of the file from the whole encoding.
proof fn lemma_state_parts(s: Seq<char>, orig: SavedState)
    requires
        state_encoding(s, orig),
    ensures
        state_parts_at(s, orig),
{
    reveal_strlit("{\"installed\":{");
    reveal_strlit("},\"pending\":");
    reveal_strlit(",\"pending\":");
    reveal_strlit("null");
    reveal_strlit("}");
    let sv = orig@;
    let pend_text = match sv.pending {
        None => "null"@,
        Some(pd) => seq!['{'] + spec_pending_entries(pd) + seq!['}'],
    };
    let tail2 = pend_text + "}"@;
    let tail1 = ",\"pending\":"@ + tail2;
    let tail0 = spec_installed_entries(sv.installed) + seq!['}'] + tail1;
    assert(s.subrange(0, s.len() as int) =~= s);
    assert(s =~= "{\"installed\":{"@ + tail0);
    lemma_shift_suffix(s, 0, "{\"installed\":{"@, tail0);
    assert(ientries_at(s, 14, sv.installed, tail1)) by {
        assert(tail0 =~= spec_installed_entries(sv.installed) + seq!['}'] + tail1);
    }
    let p2 = 14 + spec_installed_entries(sv.installed).len() as int + 1;
    lemma_shift_suffix(s, 14, spec_installed_entries(sv.installed) + seq!['}'], tail1);
    lemma_shift_suffix(s, p2, ",\"pending\":"@, tail2);
    let p3 = p2 + 11;
    match sv.pending {
        None => {
            lemma_shift_suffix(s, p3, "null"@, "}"@);
            lemma_shift_suffix(s, p3 + 4, "}"@, Seq::<char>::empty());
        },
        Some(pd) => {
            assert(tail2 =~= seq!['{'] + (spec_pending_entries(pd) + seq!['}'] + "}"@));
            lemma_shift_suffix(s, p3, seq!['{'], spec_pending_entries(pd) + seq!['}'] + "}"@);
            assert(s[p3] == s.subrange(p3, s.len() as int)[0]);
            assert(pentries_at(s, p3 + 1, pd, "}"@));
            let p4 = p3 + 1 + spec_pending_entries(pd).len() as int + 1;
            lemma_shift_suffix(s, p3 + 1, spec_pending_entries(pd) + seq!['}'], "}"@);
            lemma_shift_suffix(s, p4, "}"@, Seq::<char>::empty());
            assert(!lit_at(s, p3, "null"@)) by {
                if lit_at(s, p3, "null"@) {
                    assert(s.subrange(p3, p3 + 4)[0] == 'n');
                    assert(s[p3] == '{');
                }
            }
        },
    }
}

/// Read a state file.  Whenever the file is the encoding of a well-formed
/// state — as [`crate::codec::encode_state`] writes it — the parse succeeds
/// and reproduces an equal state, field for field: saving and loading round
/// trips, whether `pending` is absent, empty or filled.  Any successful
/// parse yields a well-formed state.
pub fn parse_state(s: &Vec<char>) -> (r: Option<SavedState>)
    ensures
        forall|orig: SavedState| #[trigger] state_encoding(s@, orig) ==> state_res(r, orig),
        match r {
            Some(st) => st.wf(),
            None => true,
        },
{
    proof {
        reveal_strlit("{\"installed\":{");
        reveal_strlit(",\"pending\":");
        reveal_strlit("null");
        reveal_strlit("}");
        assert forall|orig: SavedState| #[trigger] state_encoding(s@, orig) implies state_parts_at(
            s@,
            orig,
        ) by {
            lemma_state_parts(s@, orig);
        }
    }
    let p1 = match parse_lit(s, 0, "{\"installed\":{") {
        Some(p) => p,
        None => {
            return None;
        },
    };
    let mut iv: Vec<MapEntry<InstalledContent>> = Vec::new();
    let p2 = match parse_installed_entries(s, p1, &mut iv) {
        Some(p) => p,
        None => {
            return None;
        },
    };
    let p3 = match parse_lit(s, p2, ",\"pending\":") {
        Some(p) => p,
        None => {
            return None;
        },
    };
    let mut pv: Vec<MapEntry<ContentMetadata>> = Vec::new();
    let mut has_pending = false;
    let p5 = match parse_lit(s, p3, "null") {
        Some(p) => p,
        None => {
            if p3 >= s.len() {
                return None;
            }
            let c = s[p3];
            if c != '{' {
                return None;
            }
            has_pending = true;
            match parse_pending_entries(s, p3 + 1, &mut pv) {
                Some(p) => p,
                None => {
                    return None;
                },
            }
        },
    };
    let p6 = match parse_lit(s, p5, "}") {
        Some(p) => p,
        None => {
            return None;
        },
    };
    if p6 != s.len() {
        proof {
            reveal_strlit("{\"installed\":{");
            reveal_strlit(",\"pending\":");
            reveal_strlit("null");
            reveal_strlit("}");
            assert forall|orig: SavedState| #[trigger] state_encoding(s@, orig) implies false by {
                assert(state_parts_at(s@, orig));
            }
        }
        return None;
    }
    let installed = NameMap { entries: iv };
    if !installed.check_unique() {
        proof {
            assert forall|orig: SavedState| #[trigger] state_encoding(s@, orig) implies false by {
                assert(state_parts_at(s@, orig));
                assert(installed_views(installed@) =~= orig@.installed);
                assert forall|p: int, q: int|
                    0 <= p < q < installed@.len() implies installed@[p].name@
                    != installed@[q].name@ by {
                    assert(installed@[p].name@ == orig@.installed[p].0);
                    assert(orig@.installed[p].0 == orig.installed@[p].name@);
                    assert(orig@.installed[q].0 == orig.installed@[q].name@);
                }
            }
        }
        return None;
    }
    if has_pending {
        let pm = NameMap { entries: pv };
        if !pm.check_unique() {
            proof {
                assert forall|orig: SavedState| #[trigger] state_encoding(s@, orig) implies
                    false by {
                    assert(state_parts_at(s@, orig));
                    let pd = orig@.pending->Some_0;
                    assert(orig@.pending is Some) by {
                        reveal_strlit("null");
                        if orig@.pending is None {
                            assert(lit_at(s@, 14 + spec_installed_entries(orig@.installed).len() as int
                                + 1 + 11, "null"@));
                        }
                    }
                    assert(pending_views(pm@) =~= pd);
                    let pmap = orig.pending->Some_0;
                    assert forall|p: int, q: int| 0 <= p < q < pm@.len() implies pm@[p].name@
                        != pm@[q].name@ by {
                        assert(pm@[p].name@ == pd[p].0);
                        assert(pd[p].0 == pmap@[p].name@);
                        assert(pd[q].0 == pmap@[q].name@);
                    }
                }
            }
            return None;
        }
        let st = SavedState { installed, pending: Some(pm) };
        proof {
            assert forall|orig: SavedState| #[trigger] state_encoding(s@, orig) implies state_res(
                Some(st),
                orig,
            ) by {
                assert(state_parts_at(s@, orig));
                assert(orig@.pending is Some) by {
                    reveal_strlit("null");
                    if orig@.pending is None {
                        assert(lit_at(s@, 14 + spec_installed_entries(orig@.installed).len() as int + 1
                            + 11, "null"@));
                    }
                }
                assert(st@.installed == orig@.installed) by {
                    assert(installed_views(st.installed@) =~= orig@.installed);
                }
                assert(st@.pending == orig@.pending) by {
                    assert(pending_views(pm@) =~= orig@.pending->Some_0);
                }
                assert(st@ == orig@);
            }
        }
        Some(st)
    } else {
        let st = SavedState { installed, pending: None };
        proof {
            assert forall|orig: SavedState| #[trigger] state_encoding(s@, orig) implies state_res(
                Some(st),
                orig,
            ) by {
                assert(state_parts_at(s@, orig));
                assert(orig@.pending is None) by {
                    reveal_strlit("null");
                    if orig@.pending is Some {
                        assert(!lit_at(s@, 14 + spec_installed_entries(orig@.installed).len() as int + 1
                            + 11, "null"@));
                    }
                }
                assert(st@.installed == orig@.installed) by {
                    assert(installed_views(st.installed@) =~= orig@.installed);
                }
                assert(st@ == orig@);
            }
        }
        Some(st)
    }
}

} // verus!
