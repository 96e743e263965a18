use vstd::prelude::*;
use vstd::string::*;
use vstd::utf8::*;

verus! {

/// The pieces of `s` between occurrences of `sep` (as `str::split` with a
/// one-character pattern yields them): `n` separators give `n + 1` pieces.
pub open spec fn split_on<A>(s: Seq<A>, sep: A) -> Seq<Seq<A>>
    decreases s.len(),
{
    if s.len() == 0 {
        seq![Seq::<A>::empty()]
    } else {
        let pre = split_on(s.drop_last(), sep);
        if s.last() == sep {
            pre.push(Seq::<A>::empty())
        } else {
            pre.update(pre.len() - 1, pre.last().push(s.last()))
        }
    }
}

/// Splitting always gives at least one piece.
pub proof fn lemma_split_nonempty<A>(s: Seq<A>, sep: A)
    ensures
        split_on(s, sep).len() >= 1,
    decreases s.len(),
{
    if s.len() > 0 {
        lemma_split_nonempty(s.drop_last(), sep);
    }
}

/// Pieces that are complete in a prefix stay the same in every longer prefix.
pub proof fn lemma_split_prefix_stable<A>(s: Seq<A>, sep: A, i: int, j: int)
    requires
        0 <= i <= j <= s.len(),
    ensures
        split_on(s.take(j), sep).len() >= split_on(s.take(i), sep).len(),
        forall|m: int|
            0 <= m < split_on(s.take(i), sep).len() - 1 ==> #[trigger] split_on(s.take(j), sep)[m]
                == split_on(s.take(i), sep)[m],
    decreases j - i,
{
    lemma_split_nonempty(s.take(i), sep);
    if i < j {
        lemma_split_prefix_stable(s, sep, i, j - 1);
        assert(s.take(j).drop_last() =~= s.take(j - 1));
        lemma_split_nonempty(s.take(j - 1), sep);
    }
}

/// Char index range `[a, b)` (in `s`) of piece `k` of the chars `[lo, hi)` of
/// `s` split on `sep`, or `None` when that text has no piece `k`.
pub fn nth_piece(s: &str, lo: usize, hi: usize, sep: char, k: usize) -> (r: Option<(usize, usize)>)
    requires
        lo <= hi <= s@.len(),
    ensures
        r is None <==> k >= split_on(s@.subrange(lo as int, hi as int), sep).len(),
        r matches Some((a, b)) ==> lo <= a <= b <= hi && s@.subrange(a as int, b as int)
            == split_on(s@.subrange(lo as int, hi as int), sep)[k as int],
{
    let ghost t = s@.subrange(lo as int, hi as int);
    let mut i: usize = lo;
    let mut count: usize = 0;
    let mut cur_start: usize = lo;
    assert(t.take(0) =~= Seq::<char>::empty());
    assert(s@.subrange(lo as int, lo as int) =~= Seq::<char>::empty());
    while i < hi
        invariant
            lo <= hi <= s@.len(),
            t == s@.subrange(lo as int, hi as int),
            lo <= cur_start <= i <= hi,
            count <= k,
            split_on(t.take(i - lo), sep).len() == count + 1,
            split_on(t.take(i - lo), sep).last() == s@.subrange(cur_start as int, i as int),
        decreases hi - i,
    {
        let c = s.get_char(i);
        let ghost pre = t.take(i - lo);
        assert(t.take(i - lo + 1).drop_last() =~= pre);
        assert(t.take(i - lo + 1).last() == c);
        if c == sep {
            if count == k {
                proof {
                    lemma_split_prefix_stable(t, sep, i - lo + 1, t.len() as int);
                    assert(t.take(t.len() as int) =~= t);
                }
                return Some((cur_start, i));
            }
            count = count + 1;
            cur_start = i + 1;
            assert(s@.subrange(cur_start as int, i + 1) =~= Seq::<char>::empty());
        } else {
            assert(s@.subrange(cur_start as int, i + 1) =~= s@.subrange(cur_start as int, i as int).push(c));
        }
        i = i + 1;
    }
    assert(t.take(hi - lo) =~= t);
    if count == k {
        Some((cur_start, hi))
    } else {
        None
    }
}

/// The value of `c` as a digit in base `radix` (as `char::to_digit`).
pub open spec fn digit_value(c: char, radix: nat) -> Option<nat> {
    let d: int = if '0' <= c <= '9' {
        c as int - '0' as int
    } else if 'a' <= c <= 'z' {
        c as int - 'a' as int + 10
    } else if 'A' <= c <= 'Z' {
        c as int - 'A' as int + 10
    } else {
        radix as int
    };
    if 0 <= d < radix {
        Some(d as nat)
    } else {
        None
    }
}

/// The value of `s` read as a numeral in base `radix`, if every char is a
/// digit (the empty numeral reads as zero).
pub open spec fn numeral_value(s: Seq<char>, radix: nat) -> Option<nat>
    decreases s.len(),
{
    if s.len() == 0 {
        Some(0)
    } else {
        match (numeral_value(s.drop_last(), radix), digit_value(s.last(), radix)) {
            (Some(v), Some(d)) => Some(v * radix + d),
            _ => None,
        }
    }
}

/// What `from_str_radix` of an unsigned type whose largest value is `max`
/// gives for `s`: an optional leading `+`, then at least one digit, and a value
/// no larger than `max`.
pub open spec fn parse_unsigned(s: Seq<char>, radix: nat, max: nat) -> Option<nat> {
    let digits = if s.len() > 0 && s[0] == '+' {
        s.drop_first()
    } else {
        s
    };
    if digits.len() == 0 {
        None
    } else {
        match numeral_value(digits, radix) {
            Some(v) => if v <= max {
                Some(v)
            } else {
                None
            },
            None => None,
        }
    }
}

proof fn lemma_numeral_monotone(s: Seq<char>, radix: nat, i: int)
    requires
        0 <= i <= s.len(),
        radix >= 1,
        numeral_value(s, radix) is Some,
    ensures
        numeral_value(s.take(i), radix) is Some,
        numeral_value(s.take(i), radix)->0 <= numeral_value(s, radix)->0,
    decreases s.len() - i,
{
    if i < s.len() {
        assert(s.drop_last() =~= s.take(s.len() - 1));
        assert(s.drop_last().take(i) =~= s.take(i));
        lemma_numeral_monotone(s.drop_last(), radix, i);
        let v = numeral_value(s.drop_last(), radix)->0;
        let d = digit_value(s.last(), radix)->0;
        assert(v * radix + d >= v) by (nonlinear_arith)
            requires
                radix >= 1,
        ;
    } else {
        assert(s.take(i) =~= s);
    }
}

/// Parses the chars `[a, b)` of `s` as `from_str_radix` does for an unsigned
/// type whose largest value is `max`.
pub fn parse_unsigned_range(s: &str, a: usize, b: usize, radix: u32, max: u64) -> (r: Option<
    u64,
>)
    requires
        a <= b <= s@.len(),
        2 <= radix <= 36,
    ensures
        r matches Some(v) ==> parse_unsigned(s@.subrange(a as int, b as int), radix as nat, max as nat)
            == Some(v as nat),
        r is None ==> parse_unsigned(s@.subrange(a as int, b as int), radix as nat, max as nat) is None,
{
    let ghost whole = s@.subrange(a as int, b as int);
    let mut start = a;
    if a < b && s.get_char(a) == '+' {
        start = a + 1;
    }
    let ghost digits = s@.subrange(start as int, b as int);
    assert(whole.len() > 0 && whole[0] == '+' ==> digits =~= whole.drop_first());
    assert(!(whole.len() > 0 && whole[0] == '+') ==> digits =~= whole);
    if start == b {
        return None;
    }
    let mut acc: u64 = 0;
    let mut i = start;
    assert(digits.take(0) =~= Seq::<char>::empty());
    while i < b
        invariant
            a <= start <= i <= b <= s@.len(),
            2 <= radix <= 36,
            digits == s@.subrange(start as int, b as int),
            whole == s@.subrange(a as int, b as int),
            whole.len() > 0 && whole[0] == '+' ==> digits =~= whole.drop_first(),
            !(whole.len() > 0 && whole[0] == '+') ==> digits =~= whole,
            digits.len() > 0,
            numeral_value(digits.take(i - start), radix as nat) == Some(acc as nat),
            acc <= max,
        decreases b - i,
    {
        let c = s.get_char(i);
        let ghost pre = digits.take(i - start);
        assert(digits.take(i - start + 1).drop_last() =~= pre);
        assert(digits.take(i - start + 1).last() == c);
        let d: u32 = if '0' <= c && c <= '9' {
            (c as u32) - ('0' as u32)
        } else if 'a' <= c && c <= 'z' {
            (c as u32) - ('a' as u32) + 10
        } else if 'A' <= c && c <= 'Z' {
            (c as u32) - ('A' as u32) + 10
        } else {
            radix
        };
        if d >= radix {
            proof {
                assert(numeral_value(digits.take(i - start + 1), radix as nat) is None);
                if numeral_value(digits, radix as nat) is Some {
                    lemma_numeral_monotone(digits, radix as nat, i - start + 1);
                }
            }
            return None;
        }
        let next = match acc.checked_mul(radix as u64) {
            Some(m) => m.checked_add(d as u64),
            None => None,
        };
        match next {
            Some(v) if v <= max => {
                acc = v;
            },
            _ => {
                proof {
                    assert(numeral_value(digits.take(i - start + 1), radix as nat) == Some(
                        (acc * radix + d) as nat,
                    ));
                    if numeral_value(digits, radix as nat) is Some {
                        lemma_numeral_monotone(digits, radix as nat, i - start + 1);
                    }
                }
                return None;
            },
        }
        i = i + 1;
    }
    assert(digits.take(b - start) =~= digits);
    Some(acc)
}

/// `String::from_utf8`: the text `bytes` encode, or `None` when they are not
/// valid UTF-8. The contract states exactly that, with vstd's UTF-8 model.
#[verifier::external_body]
pub(crate) fn utf8_to_string(bytes: &[u8]) -> (r: Option<String>)
    ensures
        r is Some <==> valid_utf8(bytes@),
        r matches Some(t) ==> t@ == decode_utf8(bytes@),
{
    String::from_utf8(bytes.to_vec()).ok()
}

/// What `String::from_utf8_lossy` makes of `bytes`.
pub uninterp spec fn utf8_lossy(bytes: Seq<u8>) -> Seq<char>;

/// `String::from_utf8_lossy`, made owned. The text is named by `utf8_lossy`;
/// the contract adds only what the documentation promises: valid UTF-8 comes
/// back unchanged.
#[verifier::external_body]
pub(crate) fn lossy_string(bytes: &[u8]) -> (r: String)
    ensures
        r@ == utf8_lossy(bytes@),
        valid_utf8(bytes@) ==> r@ == decode_utf8(bytes@),
{
    String::from_utf8_lossy(bytes).into_owned()
}

/// What `str::to_lowercase` makes of `s`.
pub uninterp spec fn unicode_lowercase(s: Seq<char>) -> Seq<char>;

/// `str::to_lowercase`. The result is named by `unicode_lowercase`.
#[verifier::external_body]
pub(crate) fn to_lowercase(s: &str) -> (r: String)
    ensures
        r@ == unicode_lowercase(s@),
{
    s.to_lowercase()
}

/// `needle` occurs in `hay`.
pub open spec fn contains_text(hay: Seq<char>, needle: Seq<char>) -> bool {
    exists|i: int| 0 <= i && i + needle.len() <= hay.len() && #[trigger] hay.subrange(i, i + needle.len()) == needle
}

/// Whether `needle` occurs in `hay` (as `str::contains`).
pub fn text_contains(hay: &str, needle: &str) -> (r: bool)
    ensures
        r == contains_text(hay@, needle@),
{
    let h = hay.unicode_len();
    let m = needle.unicode_len();
    if m > h {
        proof {
            if contains_text(hay@, needle@) {
                let i = choose|i: int| 0 <= i && i + needle@.len() <= hay@.len() && #[trigger] hay@.subrange(i, i + needle@.len()) == needle@;
            }
        }
        return false;
    }
    let last = h - m;
    let mut i: usize = 0;
    let mut done = false;
    while !done
        invariant
            h == hay@.len(),
            m == needle@.len(),
            m <= h,
            last == h - m,
            i <= last,
            !done ==> forall|k: int| 0 <= k < i ==> #[trigger] hay@.subrange(k, k + m) != needle@,
            done ==> forall|k: int| 0 <= k <= last ==> #[trigger] hay@.subrange(k, k + m) != needle@,
        decreases last - i + if done { 0int } else { 1int },
    {
        let mut j: usize = 0;
        let mut same = true;
        while j < m && same
            invariant
                h == hay@.len(),
                m == needle@.len(),
                i + m <= h,
                j <= m,
                same ==> forall|l: int| 0 <= l < j ==> hay@[i + l] == needle@[l],
                !same ==> hay@.subrange(i as int, i + m) != needle@,
            decreases m - j + if same { 1int } else { 0int },
        {
            if hay.get_char(i + j) != needle.get_char(j) {
                assert(hay@.subrange(i as int, i + m)[j as int] != needle@[j as int]);
                same = false;
            } else {
                j = j + 1;
            }
        }
        if same {
            assert(hay@.subrange(i as int, i + m) =~= needle@);
            return true;
        }
        if i == last {
            done = true;
        } else {
            i = i + 1;
        }
    }
    proof {
        if contains_text(hay@, needle@) {
            let k = choose|k: int| 0 <= k && k + needle@.len() <= hay@.len() && #[trigger] hay@.subrange(k, k + needle@.len()) == needle@;
            assert(hay@.subrange(k, k + m) != needle@);
        }
    }
    false
}

} // verus!
