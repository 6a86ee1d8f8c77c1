//! String helpers: decimal formatting, trimming, case folding.

use vstd::prelude::*;
use vstd::string::StrSliceExecFns;
use vstd::string::StringExecFns;

verus! {

/// The decimal digit character for a value in `0..=9`.
pub open spec fn digit_char(d: int) -> char {
    if d == 0 {
        '0'
    } else if d == 1 {
        '1'
    } else if d == 2 {
        '2'
    } else if d == 3 {
        '3'
    } else if d == 4 {
        '4'
    } else if d == 5 {
        '5'
    } else if d == 6 {
        '6'
    } else if d == 7 {
        '7'
    } else if d == 8 {
        '8'
    } else {
        '9'
    }
}

/// Decimal digits of a non-negative number, most significant first.
pub open spec fn dec_digits(n: nat) -> Seq<char>
    decreases n,
{
    if n < 10 {
        seq![digit_char(n as int)]
    } else {
        dec_digits(n / 10).push(digit_char((n % 10) as int))
    }
}

/// Decimal notation of an integer, with a leading `-` when negative.
pub open spec fn int_str(n: int) -> Seq<char> {
    if n < 0 {
        seq!['-'] + dec_digits((-n) as nat)
    } else {
        dec_digits(n as nat)
    }
}

/// Decimal notation padded with a leading zero to at least two characters,
/// as the `{:02}` format does.
pub open spec fn pad2_str(n: int) -> Seq<char> {
    if 0 <= n <= 9 {
        seq!['0', digit_char(n)]
    } else {
        int_str(n)
    }
}

/// The digit values of `ds`, read in reverse, as characters.
pub open spec fn rev_digit_chars(ds: Seq<u8>) -> Seq<char> {
    Seq::new(ds.len(), |i: int| digit_char(ds[ds.len() - 1 - i] as int))
}

fn push_digit(s: &mut String, d: u8)
    requires
        d < 10,
    ensures
        final(s)@ == old(s)@.push(digit_char(d as int)),
{
    proof {
        reveal_strlit("0");
        reveal_strlit("1");
        reveal_strlit("2");
        reveal_strlit("3");
        reveal_strlit("4");
        reveal_strlit("5");
        reveal_strlit("6");
        reveal_strlit("7");
        reveal_strlit("8");
        reveal_strlit("9");
    }
    match d {
        0 => s.append("0"),
        1 => s.append("1"),
        2 => s.append("2"),
        3 => s.append("3"),
        4 => s.append("4"),
        5 => s.append("5"),
        6 => s.append("6"),
        7 => s.append("7"),
        8 => s.append("8"),
        _ => s.append("9"),
    }
    proof {
        assert(s@ =~= old(s)@.push(digit_char(d as int)));
    }
}

/// Renders an integer in decimal notation.
pub fn i64_to_string(v: i64) -> (s: String)
    ensures
        s@ == int_str(v as int),
{
    let mut s = String::new();
    let mut mag: u64;
    if v < 0 {
        proof {
            reveal_strlit("-");
        }
        s.append("-");
        proof {
            assert(s@ =~= seq!['-']);
        }
        mag = (-(v as i128)) as u64;
    } else {
        mag = v as u64;
    }
    let ghost prefix: Seq<char> = s@;
    let ghost m0: nat = mag as nat;
    let mut digs: Vec<u8> = Vec::new();
    if mag == 0 {
        digs.push(0);
        proof {
            assert(rev_digit_chars(digs@) =~= seq![digit_char(0)]);
        }
    }
    while mag > 0
        invariant
            forall|k: int| 0 <= k < digs@.len() ==> digs@[k] < 10,
            mag > 0 ==> dec_digits(m0) =~= dec_digits(mag as nat) + rev_digit_chars(digs@),
            mag == 0 ==> dec_digits(m0) =~= rev_digit_chars(digs@),
            mag == 0 ==> digs@.len() > 0,
        decreases mag,
    {
        let d = (mag % 10) as u8;
        let ghost old_digs = digs@;
        let ghost old_mag = mag as nat;
        digs.push(d);
        mag = mag / 10;
        proof {
            assert(rev_digit_chars(old_digs.push(d)) =~= seq![digit_char(d as int)]
                + rev_digit_chars(old_digs));
            if old_mag >= 10 {
                assert(dec_digits(old_mag) == dec_digits(old_mag / 10).push(
                    digit_char((old_mag % 10) as int),
                ));
                assert(dec_digits(old_mag / 10).push(digit_char(d as int)) =~= dec_digits(
                    old_mag / 10,
                ) + seq![digit_char(d as int)]);
                assert(dec_digits(m0) =~= dec_digits(mag as nat) + rev_digit_chars(digs@));
            } else {
                assert(dec_digits(old_mag) =~= seq![digit_char(d as int)]);
                assert(dec_digits(m0) =~= rev_digit_chars(digs@));
            }
        }
    }
    let ghost all: Seq<char> = rev_digit_chars(digs@);
    let mut i = digs.len();
    while i > 0
        invariant
            i <= digs@.len(),
            all == rev_digit_chars(digs@),
            forall|k: int| 0 <= k < digs@.len() ==> digs@[k] < 10,
            s@ =~= prefix + all.take(digs@.len() as int - i as int),
        decreases i,
    {
        i = i - 1;
        let d = digs[i];
        push_digit(&mut s, d);
        proof {
            let j: int = digs@.len() as int - i as int - 1;
            assert(all[j] == digit_char(digs@[digs@.len() - 1 - j] as int));
            assert(all[j] == digit_char(d as int));
            assert(all.take(j + 1) =~= all.take(j).push(all[j]));
        }
    }
    proof {
        assert(all.take(digs@.len() as int) =~= all);
        if v < 0 {
            assert(s@ =~= int_str(v as int));
        } else {
            assert(prefix =~= Seq::<char>::empty());
            assert(s@ =~= int_str(v as int));
        }
    }
    s
}

/// Renders an integer in decimal, zero-padded to at least two characters.
pub fn i64_to_string_pad2(v: i64) -> (s: String)
    ensures
        s@ == pad2_str(v as int),
{
    if 0 <= v && v <= 9 {
        let mut s = String::new();
        proof {
            reveal_strlit("0");
        }
        s.append("0");
        proof {
            assert(s@ =~= seq!['0']);
        }
        push_digit(&mut s, v as u8);
        proof {
            assert(s@ =~= pad2_str(v as int));
        }
        s
    } else {
        i64_to_string(v)
    }
}

/// The Unicode `White_Space` property: the twenty-five code points that
/// `char::is_whitespace` accepts.
pub open spec fn is_unicode_ws(c: char) -> bool {
    c == ' ' || c == '\t' || c == '\n' || c == '\u{b}' || c == '\u{c}' || c == '\r' || c
        == '\u{85}' || c == '\u{a0}' || c == '\u{1680}' || c == '\u{2000}' || c == '\u{2001}' || c
        == '\u{2002}' || c == '\u{2003}' || c == '\u{2004}' || c == '\u{2005}' || c == '\u{2006}'
        || c == '\u{2007}' || c == '\u{2008}' || c == '\u{2009}' || c == '\u{200a}' || c
        == '\u{2028}' || c == '\u{2029}' || c == '\u{202f}' || c == '\u{205f}' || c == '\u{3000}'
}

/// Relies on `char::is_whitespace`: true exactly for the characters with the
/// Unicode `White_Space` property, the list `is_unicode_ws` spells out.
#[verifier::external_body]
fn char_is_ws(c: char) -> (r: bool)
    ensures
        r == is_unicode_ws(c),
{
    c.is_whitespace()
}

/// `s` with leading white space removed.
pub open spec fn trim_front(s: Seq<char>) -> Seq<char>
    decreases s.len(),
{
    if s.len() > 0 && is_unicode_ws(s[0]) {
        trim_front(s.drop_first())
    } else {
        s
    }
}

/// `s` with trailing white space removed.
pub open spec fn trim_back(s: Seq<char>) -> Seq<char>
    decreases s.len(),
{
    if s.len() > 0 && is_unicode_ws(s[s.len() - 1]) {
        trim_back(s.drop_last())
    } else {
        s
    }
}

/// `s` with leading and trailing white space removed, as `str::trim` yields.
pub open spec fn trim_spec(s: Seq<char>) -> Seq<char> {
    trim_back(trim_front(s))
}

proof fn lemma_trim_front_subrange(s: Seq<char>, start: int)
    requires
        0 <= start <= s.len(),
        forall|k: int| 0 <= k < start ==> is_unicode_ws(s[k]),
        start == s.len() || !is_unicode_ws(s[start]),
    ensures
        trim_front(s) == s.subrange(start, s.len() as int),
    decreases start,
{
    if start == 0 {
        assert(s.subrange(0, s.len() as int) =~= s);
    } else {
        lemma_trim_front_subrange(s.drop_first(), start - 1);
        assert(s.drop_first().subrange(start - 1, s.drop_first().len() as int) =~= s.subrange(
            start,
            s.len() as int,
        ));
    }
}

proof fn lemma_trim_back_subrange(s: Seq<char>, end: int)
    requires
        0 <= end <= s.len(),
        forall|k: int| end <= k < s.len() ==> is_unicode_ws(s[k]),
        end == 0 || !is_unicode_ws(s[end - 1]),
    ensures
        trim_back(s) == s.subrange(0, end),
    decreases s.len() - end,
{
    if end == s.len() {
        assert(trim_back(s) == s.subrange(0, end)) by {
            assert(s.subrange(0, end) =~= s);
        }
    } else {
        lemma_trim_back_subrange(s.drop_last(), end);
        assert(s.drop_last().subrange(0, end) =~= s.subrange(0, end));
    }
}

/// `str::trim`, with the result as an owned string.
pub fn trim_to_string(s: &str) -> (r: String)
    ensures
        r@ == trim_spec(s@),
{
    let len = s.unicode_len();
    let mut start: usize = 0;
    while start < len && char_is_ws(s.get_char(start))
        invariant
            0 <= start <= len,
            len == s@.len(),
            forall|k: int| 0 <= k < start ==> is_unicode_ws(s@[k]),
        decreases len - start,
    {
        start = start + 1;
    }
    proof {
        lemma_trim_front_subrange(s@, start as int);
    }
    let ghost t: Seq<char> = trim_front(s@);
    let mut end: usize = len;
    while end > start && char_is_ws(s.get_char(end - 1))
        invariant
            start <= end <= len,
            len == s@.len(),
            t == s@.subrange(start as int, len as int),
            forall|k: int| end <= k < len ==> is_unicode_ws(s@[k]),
        decreases end,
    {
        end = end - 1;
    }
    proof {
        assert forall|k: int| (end - start) <= k < t.len() implies is_unicode_ws(t[k]) by {
            assert(t[k] == s@[start + k]);
        }
        if end > start {
            assert(t[end - start - 1] == s@[end - 1]);
        }
        lemma_trim_back_subrange(t, end - start);
    }
    let sub = s.substring_char(start, end);
    proof {
        assert(sub@ =~= t.subrange(0, end - start));
    }
    sub.to_owned()
}

/// Trimming does not change a string whose ends are not white space.
pub proof fn lemma_trim_id(s: Seq<char>)
    requires
        s.len() == 0 || (!is_unicode_ws(s[0]) && !is_unicode_ws(s[s.len() - 1])),
    ensures
        trim_spec(s) == s,
{
}

/// Decimal digit strings are non-empty and begin and end with a digit.
pub proof fn lemma_dec_digits_ends(n: nat)
    ensures
        dec_digits(n).len() > 0,
        !is_unicode_ws(dec_digits(n)[0]),
        !is_unicode_ws(dec_digits(n).last()),
    decreases n,
{
    if n >= 10 {
        lemma_dec_digits_ends(n / 10);
        assert(dec_digits(n)[0] == dec_digits(n / 10)[0]);
    }
}

/// Decimal notation carries no white space, so trimming leaves it unchanged.
pub proof fn lemma_int_str_trim(n: int)
    ensures
        trim_spec(int_str(n)) == int_str(n),
{
    if n < 0 {
        lemma_dec_digits_ends((-n) as nat);
        assert(int_str(n)[0] == '-');
        assert(int_str(n)[int_str(n).len() - 1] == dec_digits((-n) as nat).last());
        lemma_trim_id(int_str(n));
    } else {
        lemma_dec_digits_ends(n as nat);
        lemma_trim_id(int_str(n));
    }
}

/// What `str::to_lowercase` returns for a string with the given characters:
/// its Unicode lower-case folding, a function of the characters alone.
pub uninterp spec fn lower_of(s: Seq<char>) -> Seq<char>;

/// Relies on `str::to_lowercase`: the result depends on the characters alone.
#[verifier::external_body]
pub fn to_lowercase_string(s: &str) -> (r: String)
    ensures
        r@ == lower_of(s@),
{
    s.to_lowercase()
}

} // verus!
