use vstd::prelude::*;

verus! {

/// How many entries of `s` equal `x`.
pub open spec fn count_of(s: Seq<Seq<char>>, x: Seq<char>) -> nat
    decreases s.len(),
{
    if s.len() == 0 {
        0
    } else {
        count_of(s.drop_last(), x) + if s.last() == x {
            1nat
        } else {
            0nat
        }
    }
}

/// The views of a list of strings.
pub open spec fn string_views(v: Seq<String>) -> Seq<Seq<char>> {
    v.map_values(|s: String| s@)
}

/// `x` occurs in `s` at least as often as any entry of `s`.
pub open spec fn is_most_common(s: Seq<Seq<char>>, x: Seq<char>) -> bool {
    &&& s.contains(x)
    &&& forall|j: int| 0 <= j < s.len() ==> count_of(s, #[trigger] s[j]) <= count_of(s, x)
}

proof fn lemma_count_step(s: Seq<Seq<char>>, x: Seq<char>, k: int)
    requires
        0 <= k < s.len(),
    ensures
        count_of(s.take(k + 1), x) == count_of(s.take(k), x) + if s[k] == x {
            1nat
        } else {
            0nat
        },
{
    assert(s.take(k + 1).drop_last() =~= s.take(k));
}

/// The string that occurs most often in `vec`; among equally frequent ones,
/// the one that comes first. `None` exactly when `vec` is empty.
pub fn most_common(vec: Vec<String>) -> (r: Option<String>)
    ensures
        r is None <==> vec@.len() == 0,
        r matches Some(x) ==> is_most_common(string_views(vec@), x@),
        r matches Some(x) ==> exists|i: int|
            0 <= i < vec@.len() && vec@[i]@ == x@ && (forall|j: int|
                0 <= j < i ==> #[trigger] count_of(string_views(vec@), string_views(vec@)[j])
                    < count_of(string_views(vec@), x@)),
{
    let n = vec.len();
    if n == 0 {
        return None;
    }
    let ghost views = string_views(vec@);
    let mut best: usize = 0;
    let mut best_count: usize = 0;
    let mut i: usize = 0;
    while i < n
        invariant
            n == vec@.len(),
            views == string_views(vec@),
            i <= n,
            best < n,
            i == 0 ==> best == 0 && best_count == 0,
            i > 0 ==> best < i && best_count == count_of(views, views[best as int]),
            forall|j: int| 0 <= j < i ==> #[trigger] count_of(views, views[j]) <= best_count,
            forall|j: int|
                0 <= j < best ==> #[trigger] count_of(views, views[j]) < best_count,
        decreases n - i,
    {
        let mut c: usize = 0;
        let mut k: usize = 0;
        assert(views.take(0) =~= Seq::<Seq<char>>::empty());
        while k < n
            invariant
                n == vec@.len(),
                views == string_views(vec@),
                i < n,
                k <= n,
                c <= k,
                c == count_of(views.take(k as int), views[i as int]),
            decreases n - k,
        {
            proof {
                lemma_count_step(views, views[i as int], k as int);
            }
            if vec[k] == vec[i] {
                c = c + 1;
            }
            k = k + 1;
        }
        assert(views.take(n as int) =~= views);
        if i == 0 || c > best_count {
            best = i;
            best_count = c;
        }
        i = i + 1;
    }
    let mut vec = vec;
    let ghost old_vec = vec@;
    let r = vec.swap_remove(best);
    assert(views[best as int] == r@);
    assert(views.contains(r@));
    Some(r)
}

/// `b` is printable ASCII other than the space (as `u8::is_ascii_graphic`).
pub open spec fn is_graphic(b: u8) -> bool {
    0x21 <= b <= 0x7e
}

/// The lower-case hexadecimal digit for `d < 16`.
pub open spec fn hex_digit(d: u8) -> u8 {
    if d < 10 {
        (0x30 + d) as u8
    } else {
        (0x61 + d - 10) as u8
    }
}

/// The printed form of one byte: itself if it is graphic, `\xNN` otherwise.
pub open spec fn escaped_byte(b: u8) -> Seq<u8> {
    if is_graphic(b) {
        seq![b]
    } else {
        seq![0x5cu8, 0x78u8, hex_digit(b / 16), hex_digit(b % 16)]
    }
}

/// The printed form of a byte string.
pub open spec fn escaped(s: Seq<u8>) -> Seq<u8>
    decreases s.len(),
{
    if s.len() == 0 {
        Seq::empty()
    } else {
        escaped(s.drop_last()) + escaped_byte(s.last())
    }
}

fn hex_digit_exec(d: u8) -> (r: u8)
    requires
        d < 16,
    ensures
        r == hex_digit(d),
{
    if d < 10 {
        0x30 + d
    } else {
        0x61 + d - 10
    }
}

/// The ASCII text that `print_bytes` writes for `data` (without the final
/// newline): graphic bytes as themselves, all others as `\xNN` in lower-case
/// hexadecimal.
pub fn escape_bytes(data: &[u8]) -> (r: Vec<u8>)
    ensures
        r@ == escaped(data@),
{
    let mut out: Vec<u8> = Vec::new();
    let mut i: usize = 0;
    assert(data@.take(0) =~= Seq::<u8>::empty());
    while i < data.len()
        invariant
            i <= data@.len(),
            out@ == escaped(data@.take(i as int)),
        decreases data@.len() - i,
    {
        let b = data[i];
        assert(data@.take(i + 1).drop_last() =~= data@.take(i as int));
        if 0x21 <= b && b <= 0x7e {
            out.push(b);
        } else {
            out.push(0x5c);
            out.push(0x78);
            out.push(hex_digit_exec(b / 16));
            out.push(hex_digit_exec(b % 16));
        }
        assert(out@ =~= escaped(data@.take(i + 1)));
        i = i + 1;
    }
    assert(data@.take(data@.len() as int) =~= data@);
    out
}


/// What `print_bytes` writes is printable: every byte of the escaped form of
/// any byte string is graphic ASCII.
pub proof fn lemma_escaped_printable(s: Seq<u8>)
    ensures
        forall|i: int| 0 <= i < escaped(s).len() ==> is_graphic(#[trigger] escaped(s)[i]),
    decreases s.len(),
{
    if s.len() > 0 {
        lemma_escaped_printable(s.drop_last());
        let pre = escaped(s.drop_last());
        let tail = escaped_byte(s.last());
        assert forall|i: int| 0 <= i < tail.len() implies is_graphic(#[trigger] tail[i]) by {
            let b = s.last();
            assert(b / 16 < 16 && b % 16 < 16);
        }
        assert forall|i: int| 0 <= i < escaped(s).len() implies is_graphic(#[trigger] escaped(s)[i]) by {
            if i < pre.len() {
                assert(escaped(s)[i] == pre[i]);
            } else {
                assert(escaped(s)[i] == tail[i - pre.len()]);
            }
        }
    }
}

} // verus!
