use vstd::prelude::*;

verus! {

/// ASCII whitespace: space, and tab through carriage return.
pub open spec fn is_ws(b: u8) -> bool {
    b == 32 || (9 <= b && b <= 13)
}

pub open spec fn is_digit(b: u8) -> bool {
    48 <= b && b <= 57
}

/// Value of a string of decimal digits.
pub open spec fn digits_value(s: Seq<u8>) -> nat
    decreases s.len(),
{
    if s.len() == 0 {
        0
    } else {
        digits_value(s.drop_last()) * 10 + (s.last() - 48) as nat
    }
}

pub open spec fn all_digits(s: Seq<u8>) -> bool {
    forall|i: int| 0 <= i < s.len() ==> is_digit(#[trigger] s[i])
}

/// A `u32` written in decimal: an optional `+`, then one or more digits,
/// of value at most `u32::MAX`.
pub open spec fn parse_u32_spec(s: Seq<u8>) -> Option<u32> {
    let d = if s.len() > 0 && s[0] == 43u8 {
        s.drop_first()
    } else {
        s
    };
    if d.len() > 0 && all_digits(d) && digits_value(d) <= u32::MAX {
        Some(digits_value(d) as u32)
    } else {
        None
    }
}

proof fn lemma_digits_value_grows(d: Seq<u8>, j: int)
    requires
        all_digits(d),
        0 <= j <= d.len(),
    ensures
        digits_value(d.take(j)) <= digits_value(d),
    decreases d.len() - j,
{
    if j < d.len() {
        lemma_digits_value_grows(d, j + 1);
        assert(d.take(j + 1).drop_last() =~= d.take(j));
    } else {
        assert(d.take(j) =~= d);
    }
}

/// Reads the decimal `u32` that `s[start..end]` spells.
pub fn parse_u32(s: &[u8], start: usize, end: usize) -> (r: Option<u32>)
    requires
        start <= end <= s@.len(),
    ensures
        r == parse_u32_spec(s@.subrange(start as int, end as int)),
{
    let ghost t = s@.subrange(start as int, end as int);
    let mut i = start;
    if i < end && s[i] == 43u8 {
        i = i + 1;
    }
    let ghost d = if t.len() > 0 && t[0] == 43u8 { t.drop_first() } else { t };
    assert(d =~= s@.subrange(i as int, end as int));
    assert(parse_u32_spec(t) == (if d.len() > 0 && all_digits(d) && digits_value(d) <= u32::MAX {
        Some(digits_value(d) as u32)
    } else {
        None
    }));
    if i == end {
        return None;
    }
    let first = i;
    let mut value: u64 = 0;
    while i < end
        invariant
            first <= i <= end,
            end <= s@.len(),
            d == s@.subrange(first as int, end as int),
            parse_u32_spec(s@.subrange(start as int, end as int)) == (if d.len() > 0 && all_digits(d) && digits_value(d)
                <= u32::MAX {
                Some(digits_value(d) as u32)
            } else {
                None
            }),
            all_digits(d.take(i - first)),
            value == digits_value(d.take(i - first)),
            value <= u32::MAX,
        decreases end - i,
    {
        let b = s[i];
        if !(48u8 <= b && b <= 57u8) {
            assert(d[i - first] == b);
            assert(!all_digits(d));
            return None;
        }
        proof {
            assert(d.take(i - first + 1).drop_last() =~= d.take(i - first));
            assert(d.take(i - first + 1).last() == b);
        }
        value = value * 10 + (b - 48u8) as u64;
        i = i + 1;
        if value > u32::MAX as u64 {
            proof {
                if all_digits(d) {
                    lemma_digits_value_grows(d, i - first);
                }
            }
            return None;
        }
    }
    assert(d.take(i - first) =~= d);
    Some(value as u32)
}

/// Length of the run of non-whitespace bytes of `s` from position `k`.
pub open spec fn word_len_from(s: Seq<u8>, k: int) -> nat
    decreases s.len() - k,
{
    if k < 0 || k >= s.len() || is_ws(s[k]) {
        0
    } else {
        1 + word_len_from(s, k + 1)
    }
}

/// The whitespace-separated words of `s` from position `i` on.
pub open spec fn words_from(s: Seq<u8>, i: int) -> Seq<Seq<u8>>
    decreases s.len() - i,
{
    if i < 0 || i >= s.len() {
        Seq::empty()
    } else if is_ws(s[i]) {
        words_from(s, i + 1)
    } else {
        let j = vstd::math::min(s.len() as int, i + 1 + word_len_from(s, i + 1));
        seq![s.subrange(i, j)] + words_from(s, j)
    }
}

proof fn lemma_word_len_from(s: Seq<u8>, k: int, j: int)
    requires
        0 <= k <= j <= s.len(),
        forall|m: int| k <= m < j ==> !is_ws(#[trigger] s[m]),
        j == s.len() || is_ws(s[j]),
    ensures
        word_len_from(s, k) == j - k,
        vstd::math::min(s.len() as int, k + word_len_from(s, k)) == j,
    decreases j - k,
{
    if k < j {
        lemma_word_len_from(s, k + 1, j);
    }
}

/// The values of the words of `ws` that spell a `u32`, in order.
pub open spec fn numbers_of(ws: Seq<Seq<u8>>) -> Seq<u32>
    decreases ws.len(),
{
    if ws.len() == 0 {
        Seq::empty()
    } else {
        match parse_u32_spec(ws.last()) {
            Some(x) => numbers_of(ws.drop_last()).push(x),
            None => numbers_of(ws.drop_last()),
        }
    }
}

/// The numbers among the words of `s` from position `i` on.
pub open spec fn numbers_from(s: Seq<u8>, i: int) -> Seq<u32> {
    numbers_of(words_from(s, i))
}

/// The `u32` values spelled by the whitespace-separated words of
/// `s[start..]`, in order; words that are not such a value are skipped.
pub fn parse_numbers(s: &[u8], start: usize) -> (r: Vec<u32>)
    requires
        start <= s@.len(),
    ensures
        r@ == numbers_from(s@, start as int),
{
    let mut r: Vec<u32> = Vec::new();
    let mut i = start;
    let ghost mut done_words: Seq<Seq<u8>> = Seq::empty();
    assert(words_from(s@, start as int) =~= done_words + words_from(s@, i as int));
    while i < s.len()
        invariant
            start <= i <= s@.len(),
            words_from(s@, start as int) == done_words + words_from(s@, i as int),
            r@ == numbers_of(done_words),
        decreases s.len() - i,
    {
        if s[i] == 32u8 || (9u8 <= s[i] && s[i] <= 13u8) {
            i = i + 1;
        } else {
            let mut j = i + 1;
            while j < s.len() && !(s[j] == 32u8 || (9u8 <= s[j] && s[j] <= 13u8))
                invariant
                    i < j <= s@.len(),
                    forall|k: int| i < k < j ==> !is_ws(#[trigger] s@[k]),
                decreases s.len() - j,
            {
                j = j + 1;
            }
            proof {
                lemma_word_len_from(s@, i + 1, j as int);
            }
            let ghost w = s@.subrange(i as int, j as int);
            let ghost before = done_words;
            let v = parse_u32(s, i, j);
            proof {
                done_words = done_words.push(w);
                assert(words_from(s@, start as int) =~= done_words + words_from(s@, j as int));
                assert(done_words.drop_last() =~= before);
            }
            match v {
                Some(x) => {
                    r.push(x);
                },
                None => {},
            }
            i = j;
        }
    }
    assert(done_words + words_from(s@, i as int) =~= done_words);
    r
}

} // verus!
