//! The locator text format: indices joined by `.`, the empty string
//! denoting the root. The format is part of the navigable address
//! surface and round-trips exactly.

use vstd::prelude::*;

use crate::path::AstPath;

verus! {

/// The error for locator text that does not parse.
#[derive(Clone, Copy, PartialEq, Eq, Structural, Debug)]
pub struct ParseAstPathError;

/// The value of a decimal digit character, `-1` for any other character.
pub open spec fn digit_val(c: char) -> int {
    if c == '0' {
        0
    } else if c == '1' {
        1
    } else if c == '2' {
        2
    } else if c == '3' {
        3
    } else if c == '4' {
        4
    } else if c == '5' {
        5
    } else if c == '6' {
        6
    } else if c == '7' {
        7
    } else if c == '8' {
        8
    } else if c == '9' {
        9
    } else {
        -1
    }
}

/// Whether `c` is a decimal digit.
pub open spec fn is_digit(c: char) -> bool {
    digit_val(c) >= 0
}

/// The character for a decimal digit value.
pub open spec fn digit_char(d: int) -> char {
    if d == 0 {
        '0'
    } else if d == 1 {
        '1'
    } else if d == 2 {
        '2'
    } else if d == 3 {
        '3'
    } else if d == 4 {
        '4'
    } else if d == 5 {
        '5'
    } else if d == 6 {
        '6'
    } else if d == 7 {
        '7'
    } else if d == 8 {
        '8'
    } else {
        '9'
    }
}

/// The decimal digits of `n`, most significant first.
pub open spec fn dec_digits(n: nat) -> Seq<char>
    decreases n,
{
    if n < 10 {
        seq![digit_char(n as int)]
    } else {
        dec_digits(n / 10).push(digit_char((n % 10) as int))
    }
}

/// The number a digit string denotes.
pub open spec fn digits_val(s: Seq<char>) -> int
    decreases s.len(),
{
    if s.len() == 0 {
        0
    } else {
        digits_val(s.drop_last()) * 10 + digit_val(s.last())
    }
}

/// Whether every character of `s` is a decimal digit.
pub open spec fn all_digits(s: Seq<char>) -> bool {
    forall|i: int| 0 <= i < s.len() ==> is_digit(#[trigger] s[i])
}

/// The serialized form of a locator: indices in decimal, joined by `.`,
/// the empty sequence giving the empty string.
pub open spec fn ser(p: Seq<usize>) -> Seq<char>
    decreases p.len(),
{
    if p.len() == 0 {
        Seq::empty()
    } else if p.len() == 1 {
        dec_digits(p[0] as nat)
    } else {
        dec_digits(p[0] as nat) + seq!['.'] + ser(p.drop_first())
    }
}

/// The position of the first `.` in `s`, `-1` when there is none.
pub open spec fn first_dot(s: Seq<char>) -> int
    decreases s.len(),
{
    if s.len() == 0 {
        -1
    } else if s[0] == '.' {
        0
    } else {
        let r = first_dot(s.drop_first());
        if r < 0 {
            -1
        } else {
            r + 1
        }
    }
}

/// The parse of one or more `.`-separated segments: every segment must be
/// a nonempty run of digits whose value fits in `usize`.
pub open spec fn spec_parse_segs(s: Seq<char>) -> Option<Seq<usize>>
    decreases s.len(),
{
    let j = if first_dot(s) < 0 || first_dot(s) >= s.len() {
        s.len() as int
    } else {
        first_dot(s)
    };
    let seg = s.take(j);
    if seg.len() > 0 && all_digits(seg) && digits_val(seg) <= usize::MAX {
        if j == s.len() {
            Some(seq![digits_val(seg) as usize])
        } else {
            match spec_parse_segs(s.skip(j + 1)) {
                Some(rest) => Some(seq![digits_val(seg) as usize] + rest),
                None => None,
            }
        }
    } else {
        None
    }
}

/// The parse of locator text: the empty string is the root locator,
/// anything else is a run of `.`-separated decimal segments.
pub open spec fn spec_parse(s: Seq<char>) -> Option<Seq<usize>> {
    if s.len() == 0 {
        Some(Seq::empty())
    } else {
        spec_parse_segs(s)
    }
}

/// What `first_dot` finds: a dot with none before it, or no dot at all.
proof fn lemma_first_dot_props(s: Seq<char>)
    ensures
        first_dot(s) >= 0 ==> first_dot(s) < s.len() && s[first_dot(s)] == '.' && (forall|i: int|
            0 <= i < first_dot(s) ==> s[i] != '.'),
        first_dot(s) < 0 ==> forall|i: int| 0 <= i < s.len() ==> s[i] != '.',
    decreases s.len(),
{
    if s.len() == 0 {
    } else if s[0] == '.' {
    } else {
        lemma_first_dot_props(s.drop_first());
        let r = first_dot(s.drop_first());
        if r >= 0 {
            assert forall|i: int| 0 <= i < first_dot(s) implies s[i] != '.' by {
                if i > 0 {
                    assert(s.drop_first()[i - 1] != '.');
                }
            }
        } else {
            assert forall|i: int| 0 <= i < s.len() implies s[i] != '.' by {
                if i > 0 {
                    assert(s.drop_first()[i - 1] != '.');
                }
            }
        }
    }
}

/// Pins `first_dot` at a known dot position.
proof fn lemma_first_dot_at(s: Seq<char>, k: int)
    requires
        0 <= k < s.len(),
        s[k] == '.',
        forall|i: int| 0 <= i < k ==> s[i] != '.',
    ensures
        first_dot(s) == k,
{
    lemma_first_dot_props(s);
    if first_dot(s) < 0 {
        assert(s[k] != '.');
    } else if first_dot(s) < k {
        assert(s[first_dot(s)] != '.');
    } else if first_dot(s) > k {
        assert(s[k] != '.');
    }
}

/// Pins `first_dot` when there is no dot.
proof fn lemma_first_dot_none(s: Seq<char>)
    requires
        forall|i: int| 0 <= i < s.len() ==> s[i] != '.',
    ensures
        first_dot(s) < 0,
{
    lemma_first_dot_props(s);
    if first_dot(s) >= 0 {
        assert(s[first_dot(s)] != '.');
    }
}

/// A digit string denotes a non-negative number.
proof fn lemma_digits_val_nonneg(s: Seq<char>)
    requires
        all_digits(s),
    ensures
        digits_val(s) >= 0,
    decreases s.len(),
{
    if s.len() > 0 {
        assert(all_digits(s.drop_last())) by {
            assert forall|i: int| 0 <= i < s.drop_last().len() implies is_digit(
                #[trigger] s.drop_last()[i],
            ) by {
                assert(s.drop_last()[i] == s[i]);
            }
        }
        lemma_digits_val_nonneg(s.drop_last());
    }
}

/// A prefix of a digit string denotes no more than the whole.
proof fn lemma_digits_val_take(s: Seq<char>, k: int)
    requires
        all_digits(s),
        0 <= k <= s.len(),
    ensures
        0 <= digits_val(s.take(k)) <= digits_val(s),
    decreases s.len(),
{
    assert(all_digits(s.take(k))) by {
        assert forall|i: int| 0 <= i < s.take(k).len() implies is_digit(
            #[trigger] s.take(k)[i],
        ) by {
            assert(s.take(k)[i] == s[i]);
        }
    }
    lemma_digits_val_nonneg(s.take(k));
    if k == s.len() {
        assert(s.take(k) =~= s);
    } else {
        assert(all_digits(s.drop_last())) by {
            assert forall|i: int| 0 <= i < s.drop_last().len() implies is_digit(
                #[trigger] s.drop_last()[i],
            ) by {
                assert(s.drop_last()[i] == s[i]);
            }
        }
        lemma_digits_val_nonneg(s.drop_last());
        assert(s.drop_last().take(k) =~= s.take(k));
        lemma_digits_val_take(s.drop_last(), k);
        assert(digits_val(s) == digits_val(s.drop_last()) * 10 + digit_val(s.last()));
        assert(digits_val(s.drop_last()) * 10 >= digits_val(s.drop_last())) by (nonlinear_arith)
            requires
                digits_val(s.drop_last()) >= 0,
        ;
    }
}

/// The digit characters carry their values.
proof fn lemma_digit_roundtrip(d: int)
    requires
        0 <= d <= 9,
    ensures
        digit_val(digit_char(d)) == d,
{
}

/// The decimal digits of `n`: nonempty, all digits, denoting `n`.
proof fn lemma_dec_digits_props(n: nat)
    ensures
        dec_digits(n).len() >= 1,
        all_digits(dec_digits(n)),
        digits_val(dec_digits(n)) == n,
    decreases n,
{
    if n < 10 {
        lemma_digit_roundtrip(n as int);
        assert(dec_digits(n).drop_last() =~= Seq::<char>::empty());
        assert(digits_val(Seq::<char>::empty()) == 0);
        assert(dec_digits(n).last() == digit_char(n as int));
    } else {
        lemma_dec_digits_props(n / 10);
        lemma_digit_roundtrip((n % 10) as int);
        let d = dec_digits(n / 10);
        let c = digit_char((n % 10) as int);
        assert(d.push(c).drop_last() =~= d);
        assert(d.push(c).last() == c);
        assert(all_digits(d.push(c))) by {
            assert forall|i: int| 0 <= i < d.push(c).len() implies is_digit(
                #[trigger] d.push(c)[i],
            ) by {
                if i < d.len() {
                    assert(d.push(c)[i] == d[i]);
                }
            }
        }
        assert(digits_val(d.push(c)) == digits_val(d) * 10 + digit_val(c));
        assert((n / 10) * 10 + n % 10 == n) by (nonlinear_arith);
    }
}

/// Serializing one more index appends a separator (unless the locator
/// was empty) and the index's digits.
proof fn lemma_ser_snoc(p: Seq<usize>, x: usize)
    ensures
        ser(p.push(x)) == if p.len() == 0 {
            dec_digits(x as nat)
        } else {
            ser(p) + seq!['.'] + dec_digits(x as nat)
        },
    decreases p.len(),
{
    let q = p.push(x);
    assert(q.len() == p.len() + 1);
    if p.len() == 0 {
        assert(q[0] == x);
    } else {
        assert(q[0] == p[0]);
        assert(q.drop_first() =~= p.drop_first().push(x));
        lemma_ser_snoc(p.drop_first(), x);
        if p.len() == 1 {
            assert(ser(q.drop_first()) == dec_digits(x as nat));
            assert(ser(q) == dec_digits(p[0] as nat) + seq!['.'] + dec_digits(x as nat));
        } else {
            assert(ser(q) =~= ser(p) + seq!['.'] + dec_digits(x as nat));
        }
    }
}

/// Parsing undoes serializing, for locators of one or more indices.
proof fn lemma_parse_ser_segs(p: Seq<usize>)
    requires
        p.len() >= 1,
    ensures
        spec_parse_segs(ser(p)) == Some(p),
    decreases p.len(),
{
    let s = ser(p);
    let d0 = dec_digits(p[0] as nat);
    lemma_dec_digits_props(p[0] as nat);
    if p.len() == 1 {
        assert(s == d0);
        assert(forall|i: int| 0 <= i < s.len() ==> s[i] != '.') by {
            assert forall|i: int| 0 <= i < s.len() implies s[i] != '.' by {
                assert(is_digit(s[i]));
            }
        }
        lemma_first_dot_none(s);
        assert(s.take(s.len() as int) =~= s);
        assert(spec_parse_segs(s) == Some(seq![digits_val(s) as usize]));
        assert(seq![digits_val(s) as usize] =~= p);
    } else {
        assert(s == d0 + seq!['.'] + ser(p.drop_first()));
        assert(s[d0.len() as int] == '.');
        assert(forall|i: int| 0 <= i < d0.len() ==> s[i] != '.') by {
            assert forall|i: int| 0 <= i < d0.len() implies s[i] != '.' by {
                assert(s[i] == d0[i]);
                assert(is_digit(d0[i]));
            }
        }
        lemma_first_dot_at(s, d0.len() as int);
        let seg = s.take(d0.len() as int);
        assert(seg =~= d0);
        lemma_parse_ser_segs(p.drop_first());
        assert(s.skip(d0.len() as int + 1) =~= ser(p.drop_first()));
        assert(spec_parse_segs(s) == Some(seq![digits_val(seg) as usize] + p.drop_first()));
        assert(seq![digits_val(seg) as usize] + p.drop_first() =~= p);
    }
}

/// Locator text round-trip: parsing the serialized form of any locator
/// gives the locator back, and the empty locator serializes to the empty
/// string.
pub proof fn lemma_locator_text_roundtrip(p: Seq<usize>)
    ensures
        spec_parse(ser(p)) == Some(p),
        ser(Seq::<usize>::empty()) == Seq::<char>::empty(),
{
    if p.len() == 0 {
        assert(ser(p) == Seq::<char>::empty());
        assert(p =~= Seq::<usize>::empty());
    } else {
        lemma_dec_digits_props(p[0] as nat);
        assert(ser(p).len() > 0) by {
            if p.len() >= 2 {
                assert(ser(p).len() >= dec_digits(p[0] as nat).len());
            }
        }
        lemma_parse_ser_segs(p);
    }
}

/// The decimal text of one digit.
fn digit_str(d: usize) -> (r: &'static str)
    requires
        d <= 9,
    ensures
        r@ == seq![digit_char(d as int)],
{
    proof {
        reveal_strlit("0");
        reveal_strlit("1");
        reveal_strlit("2");
        reveal_strlit("3");
        reveal_strlit("4");
        reveal_strlit("5");
        reveal_strlit("6");
        reveal_strlit("7");
        reveal_strlit("8");
        reveal_strlit("9");
    }
    let r: &'static str = if d == 0 {
        "0"
    } else if d == 1 {
        "1"
    } else if d == 2 {
        "2"
    } else if d == 3 {
        "3"
    } else if d == 4 {
        "4"
    } else if d == 5 {
        "5"
    } else if d == 6 {
        "6"
    } else if d == 7 {
        "7"
    } else if d == 8 {
        "8"
    } else {
        "9"
    };
    proof {
        assert(r@ =~= seq![digit_char(d as int)]);
    }
    r
}

/// The value of one digit character, `None` for any other character.
fn digit_of(c: char) -> (r: Option<usize>)
    ensures
        match r {
            Some(d) => d <= 9 && digit_val(c) == d,
            None => digit_val(c) < 0,
        },
{
    if c == '0' {
        Some(0)
    } else if c == '1' {
        Some(1)
    } else if c == '2' {
        Some(2)
    } else if c == '3' {
        Some(3)
    } else if c == '4' {
        Some(4)
    } else if c == '5' {
        Some(5)
    } else if c == '6' {
        Some(6)
    } else if c == '7' {
        Some(7)
    } else if c == '8' {
        Some(8)
    } else if c == '9' {
        Some(9)
    } else {
        None
    }
}

/// Appends the decimal digits of `n`.
fn push_digits(out: &mut String, n: usize)
    ensures
        final(out)@ == old(out)@ + dec_digits(n as nat),
    decreases n,
{
    if n < 10 {
        out.append(digit_str(n));
    } else {
        push_digits(out, n / 10);
        let ghost mid = out@;
        out.append(digit_str(n % 10));
        proof {
            assert(old(out)@ + dec_digits((n / 10) as nat) + seq![
                digit_char((n % 10) as int),
            ] =~= old(out)@ + dec_digits(n as nat));
        }
    }
}

impl AstPath {
    /// The locator's compact text: indices joined by `.`, the empty
    /// locator giving the empty string.
    #[verifier::loop_isolation(false)]
    pub fn serialize(&self) -> (r: String)
        ensures
            r@ == ser(self@),
    {
        let mut out = String::new();
        let mut k: usize = 0;
        while k < self.indices.len()
            invariant
                k <= self@.len(),
                out@ == ser(self@.take(k as int)),
            decreases self@.len() - k,
        {
            if k > 0 {
                out.append(".");
            }
            push_digits(&mut out, self.indices[k]);
            proof {
                reveal_strlit(".");
                lemma_ser_snoc(self@.take(k as int), self@[k as int]);
                assert(self@.take(k + 1) =~= self@.take(k as int).push(self@[k as int]));
                assert(out@ =~= ser(self@.take(k + 1)));
            }
            k = k + 1;
        }
        proof {
            assert(self@.take(self@.len() as int) =~= self@);
        }
        out
    }

    /// Parses locator text: the empty string is the root locator; any
    /// other text must be `.`-separated decimal segments, each nonempty
    /// and fitting in `usize`, else `ParseAstPathError`.
    pub fn parse(s: &str) -> (r: Result<AstPath, ParseAstPathError>)
        ensures
            match r {
                Ok(p) => spec_parse(s@) == Some(p@),
                Err(_) => spec_parse(s@) is None,
            },
    {
        let n = s.unicode_len();
        if n == 0 {
            let empty = AstPath { indices: Vec::new() };
            proof {
                assert(spec_parse(s@) == Some(Seq::<usize>::empty()));
                assert(empty@ =~= Seq::<usize>::empty());
            }
            return Ok(empty);
        }
        match parse_segs(s, 0) {
            Ok(v) => {
                proof {
                    assert(s@.skip(0) =~= s@);
                }
                Ok(AstPath { indices: v })
            },
            Err(e) => {
                proof {
                    assert(s@.skip(0) =~= s@);
                }
                Err(e)
            },
        }
    }
}

/// The end of the segment starting at `start`: the position of the next
/// `.`, or the end of the text.
#[verifier::loop_isolation(false)]
fn seg_end(s: &str, start: usize) -> (e: usize)
    requires
        start <= s@.len(),
    ensures
        start <= e <= s@.len(),
        forall|i: int| start <= i < e ==> s@[i] != '.',
        (e as int) < s@.len() ==> s@[e as int] == '.',
{
    let n = s.unicode_len();
    let mut e = start;
    while e < n
        invariant
            start <= e <= n,
            forall|i: int| start <= i < e ==> s@[i] != '.',
        decreases n - e,
    {
        if s.get_char(e) == '.' {
            return e;
        }
        e = e + 1;
    }
    e
}

/// Parses the `.`-separated segments of `s` from `start` on.
#[verifier::loop_isolation(false)]
fn parse_segs(s: &str, start: usize) -> (r: Result<Vec<usize>, ParseAstPathError>)
    requires
        start <= s@.len(),
    ensures
        match r {
            Ok(v) => spec_parse_segs(s@.skip(start as int)) == Some(v@),
            Err(_) => spec_parse_segs(s@.skip(start as int)) is None,
        },
    decreases s@.len() - start,
{
    let n = s.unicode_len();
    let ghost rem = s@.skip(start as int);
    let e = seg_end(s, start);
    proof {
        if e < n {
            assert(rem[e - start] == s@[e as int]);
            assert forall|i: int| 0 <= i < e - start implies rem[i] != '.' by {
                assert(rem[i] == s@[start + i]);
            }
            lemma_first_dot_at(rem, e - start);
        } else {
            assert forall|i: int| 0 <= i < rem.len() implies rem[i] != '.' by {
                assert(rem[i] == s@[start + i]);
            }
            lemma_first_dot_none(rem);
        }
    }
    let ghost j = if first_dot(rem) < 0 || first_dot(rem) >= rem.len() {
        rem.len() as int
    } else {
        first_dot(rem)
    };
    let ghost seg = rem.take(j);
    proof {
        assert(j == e - start);
        assert(seg =~= s@.subrange(start as int, e as int));
    }
    if e == start {
        proof {
            assert(seg.len() == 0);
        }
        return Err(ParseAstPathError);
    }
    // Compute the segment's value, watching for stray characters and
    // overflow.
    let mut val: usize = 0;
    let mut k = start;
    while k < e
        invariant
            start <= k <= e,
            forall|i: int| start <= i < k ==> is_digit(#[trigger] s@[i]),
            val == digits_val(s@.subrange(start as int, k as int)),
        decreases e - k,
    {
        let c = s.get_char(k);
        let d = match digit_of(c) {
            Some(d) => d,
            None => {
                proof {
                    assert(seg[k - start] == s@[k as int]);
                    assert(!all_digits(seg));
                }
                return Err(ParseAstPathError);
            },
        };
        proof {
            assert(s@.subrange(start as int, k + 1).drop_last() =~= s@.subrange(
                start as int,
                k as int,
            ));
            assert(s@.subrange(start as int, k + 1).last() == s@[k as int]);
        }
        if val > (usize::MAX - d) / 10 {
            proof {
                let m = (usize::MAX - d) as int;
                assert(m == 10 * (m / 10) + m % 10 && 0 <= m % 10 < 10) by (nonlinear_arith)
                    requires
                        m >= 0,
                ;
                assert(10 * val >= 10 * (m / 10) + 10) by (nonlinear_arith)
                    requires
                        val >= m / 10 + 1,
                ;
                assert(digits_val(s@.subrange(start as int, k + 1)) > usize::MAX);
                assert(s@.subrange(start as int, k + 1) =~= seg.take(k + 1 - start));
                if all_digits(seg) {
                    lemma_digits_val_take(seg, k + 1 - start);
                }
            }
            return Err(ParseAstPathError);
        }
        proof {
            let m = (usize::MAX - d) as int;
            assert(m == 10 * (m / 10) + m % 10 && 0 <= m % 10 < 10) by (nonlinear_arith)
                requires
                    m >= 0,
            ;
            assert(10 * val <= 10 * (m / 10)) by (nonlinear_arith)
                requires
                    val <= m / 10,
            ;
        }
        val = val * 10 + d;
        k = k + 1;
    }
    proof {
        assert(s@.subrange(start as int, e as int) =~= seg);
        assert(val == digits_val(seg));
        assert(all_digits(seg)) by {
            assert forall|i: int| 0 <= i < seg.len() implies is_digit(#[trigger] seg[i]) by {
                assert(seg[i] == s@[start + i]);
            }
        }
    }
    if e == n {
        let mut out: Vec<usize> = Vec::new();
        out.push(val);
        proof {
            assert(out@ =~= seq![digits_val(seg) as usize]);
        }
        Ok(out)
    } else {
        match parse_segs(s, e + 1) {
            Ok(rest) => {
                let mut out = rest;
                out.insert(0, val);
                proof {
                    assert(rem.skip(j + 1) =~= s@.skip(e + 1));
                    let rest_spec = spec_parse_segs(s@.skip(e + 1))->Some_0;
                    assert(out@ =~= seq![digits_val(seg) as usize] + rest_spec);
                }
                Ok(out)
            },
            Err(e2) => {
                proof {
                    assert(rem.skip(j + 1) =~= s@.skip(e + 1));
                }
                Err(e2)
            },
        }
    }
}

} // verus!
