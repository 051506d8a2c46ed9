use vstd::prelude::*;

use crate::text::is_ws;

verus! {

/// The `href` attribute, or its absence, of each `a` element of the HTML
/// document `html`, in document order.
pub uninterp spec fn anchor_hrefs(html: Seq<char>) -> Seq<Option<Seq<char>>>;

/// The decompressed content of the bzip2 stream `data`.
pub uninterp spec fn bunzip2(data: Seq<u8>) -> Seq<u8>;

pub open spec fn opt_view(o: Option<String>) -> Option<Seq<char>> {
    match o {
        Some(s) => Some(s@),
        None => None,
    }
}

/// Relies on scraper's `Html::parse_document` and `Html::select` with the
/// selector `a`: the elements come in document order, and `attr("href")`
/// gives each one's attribute. The result depends on the text alone.
#[verifier::external_body]
fn anchor_href_attrs(html: &String) -> (r: Vec<Option<String>>)
    ensures
        r@.map_values(|o: Option<String>| opt_view(o)) == anchor_hrefs(html@),
{
    let document = scraper::Html::parse_document(html);
    match scraper::Selector::parse("a") {
        Ok(selector) => document.select(&selector).map(|a| a.value().attr("href").map(String::from)).collect(),
        Err(_) => Vec::new(),
    }
}

/// Relies on bzip2's `read::BzDecoder`: read to its end it yields the
/// decompressed stream, or an error for data that is not bzip2.
#[verifier::external_body]
fn decode_bz2(data: &Vec<u8>) -> (r: Option<Vec<u8>>)
    ensures
        r matches Some(v) ==> v@ == bunzip2(data@),
{
    let mut out: Vec<u8> = Vec::new();
    match std::io::Read::read_to_end(&mut bzip2::read::BzDecoder::new(data.as_slice()), &mut out) {
        Ok(_) => Some(out),
        Err(_) => None,
    }
}

/// The present values of `s`, in order.
pub open spec fn present(s: Seq<Option<Seq<char>>>) -> Seq<Seq<char>>
    decreases s.len(),
{
    if s.len() == 0 {
        Seq::empty()
    } else {
        match s.last() {
            Some(x) => present(s.drop_last()).push(x),
            None => present(s.drop_last()),
        }
    }
}

/// The link targets of the `a` elements of a dataset index page.
pub fn get_hrefs(html: &String) -> (r: Vec<String>)
    ensures
        r@.map_values(|s: String| s@) == present(anchor_hrefs(html@)),
{
    let attrs = anchor_href_attrs(html);
    let ghost all = attrs@.map_values(|o: Option<String>| opt_view(o));
    let mut r: Vec<String> = Vec::new();
    let mut i: usize = 0;
    while i < attrs.len()
        invariant
            i <= attrs@.len(),
            all == attrs@.map_values(|o: Option<String>| opt_view(o)),
            r@.map_values(|s: String| s@) == present(all.take(i as int)),
        decreases attrs.len() - i,
    {
        assert(all.take(i + 1).drop_last() =~= all.take(i as int));
        assert(all.take(i + 1).last() == opt_view(attrs@[i as int]));
        match &attrs[i] {
            Some(s) => {
                let ghost before = r@;
                r.push(s.clone());
                assert(r@.map_values(|s: String| s@) =~= before.map_values(|s: String| s@).push(s@));
            },
            None => {},
        }
        i = i + 1;
    }
    assert(all.take(i as int) =~= all);
    r
}

/// `s` split at each newline: the pieces between newlines, the last one
/// possibly empty.
pub open spec fn pieces(s: Seq<u8>) -> Seq<Seq<u8>>
    decreases s.len(),
{
    if s.len() == 0 {
        seq![Seq::empty()]
    } else {
        let p = pieces(s.drop_last());
        if s.last() == 10u8 {
            p.push(Seq::empty())
        } else {
            p.update(p.len() - 1, p.last().push(s.last()))
        }
    }
}

pub open spec fn trim_start(s: Seq<u8>) -> Seq<u8>
    decreases s.len(),
{
    if s.len() > 0 && is_ws(s[0]) {
        trim_start(s.drop_first())
    } else {
        s
    }
}

pub open spec fn trim_end(s: Seq<u8>) -> Seq<u8>
    decreases s.len(),
{
    if s.len() > 0 && is_ws(s.last()) {
        trim_end(s.drop_last())
    } else {
        s
    }
}

/// `s` without its leading and trailing ASCII whitespace.
pub open spec fn trim(s: Seq<u8>) -> Seq<u8> {
    trim_end(trim_start(s))
}

fn is_ws_byte(b: u8) -> (r: bool)
    ensures
        r == is_ws(b),
{
    b == 32u8 || (9u8 <= b && b <= 13u8)
}

/// `s` without its leading and trailing ASCII whitespace.
pub fn trim_bytes(s: &Vec<u8>) -> (r: Vec<u8>)
    ensures
        r@ == trim(s@),
{
    let mut a: usize = 0;
    assert(s@.skip(0) =~= s@);
    while a < s.len() && is_ws_byte(s[a])
        invariant
            a <= s@.len(),
            trim_start(s@) == trim_start(s@.skip(a as int)),
        decreases s.len() - a,
    {
        assert(s@.skip(a as int).drop_first() =~= s@.skip(a + 1));
        a = a + 1;
    }
    assert(trim_start(s@.skip(a as int)) == s@.skip(a as int));
    let mut b: usize = s.len();
    assert(s@.subrange(a as int, b as int) =~= s@.skip(a as int));
    while b > a && is_ws_byte(s[b - 1])
        invariant
            a <= b <= s@.len(),
            trim(s@) == trim_end(s@.subrange(a as int, b as int)),
        decreases b - a,
    {
        assert(s@.subrange(a as int, b as int).drop_last() =~= s@.subrange(a as int, b - 1));
        b = b - 1;
    }
    let mut r: Vec<u8> = Vec::new();
    let mut k = a;
    while k < b
        invariant
            a <= k <= b <= s@.len(),
            r@ == s@.subrange(a as int, k as int),
        decreases b - k,
    {
        r.push(s[k]);
        k = k + 1;
        assert(r@ =~= s@.subrange(a as int, k as int));
    }
    r
}

/// The lines of a decompressed relationship file, each trimmed.
pub open spec fn dataset_lines(data: Seq<u8>) -> Seq<Seq<u8>> {
    pieces(bunzip2(data)).map_values(|l: Seq<u8>| trim(l))
}

/// Decompresses a downloaded relationship file into its trimmed lines;
/// `None` when the data is not bzip2.
pub fn unzip_lines(data: &Vec<u8>) -> (r: Option<Vec<Vec<u8>>>)
    ensures
        r matches Some(ls) ==> ls@.map_values(|l: Vec<u8>| l@) == dataset_lines(data@),
{
    let text = match decode_bz2(data) {
        Some(t) => t,
        None => return None,
    };
    let ghost t = text@;
    let mut out: Vec<Vec<u8>> = Vec::new();
    let mut current: Vec<u8> = Vec::new();
    let mut i: usize = 0;
    while i < text.len()
        invariant
            i <= text@.len(),
            t == text@,
            pieces(t.take(i as int)) == out@.map_values(|l: Vec<u8>| l@).push(current@),
        decreases text.len() - i,
    {
        assert(t.take(i + 1).drop_last() =~= t.take(i as int));
        let ghost before = out@.map_values(|l: Vec<u8>| l@);
        if text[i] == 10u8 {
            let ghost piece = current@;
            out.push(current);
            current = Vec::new();
            assert(out@.map_values(|l: Vec<u8>| l@) =~= before.push(piece));
            assert(pieces(t.take(i + 1)) =~= out@.map_values(|l: Vec<u8>| l@).push(current@));
        } else {
            current.push(text[i]);
            assert(pieces(t.take(i + 1)) =~= out@.map_values(|l: Vec<u8>| l@).push(current@));
        }
        i = i + 1;
    }
    out.push(current);
    assert(t.take(i as int) =~= t);
    let ghost raw = out@.map_values(|l: Vec<u8>| l@);
    let mut lines: Vec<Vec<u8>> = Vec::new();
    let mut j: usize = 0;
    while j < out.len()
        invariant
            j <= out@.len(),
            raw == out@.map_values(|l: Vec<u8>| l@),
            raw == pieces(t),
            lines@.map_values(|l: Vec<u8>| l@) == raw.take(j as int).map_values(|l: Seq<u8>| trim(l)),
        decreases out.len() - j,
    {
        let ghost before = lines@.map_values(|l: Vec<u8>| l@);
        let line = trim_bytes(&out[j]);
        assert(raw[j as int] == out@[j as int]@);
        let ghost prev_take = raw.take(j as int);
        assert(raw.take(j + 1) =~= prev_take.push(raw[j as int]));
        let ghost line_view = line@;
        lines.push(line);
        assert(lines@.map_values(|l: Vec<u8>| l@) =~= before.push(line_view));
        assert(prev_take.push(raw[j as int]).map_values(|l: Seq<u8>| trim(l)) =~= prev_take.map_values(|l: Seq<u8>| trim(l)).push(trim(raw[j as int])));
        j = j + 1;
    }
    assert(raw.take(j as int) =~= raw);
    Some(lines)
}

} // verus!
