//! Reading the outgoing links off a fetched page, and telling an article
//! address from any other. Both work on bytes.

use vstd::prelude::*;
use vstd::string::is_ascii_spec_bytes;
use vstd::string::StringSliceAdditionalSpecFns;

verus! {

/// Whether `pat` stands in `hay` at position `at`.
pub open spec fn matches_at(hay: Seq<u8>, pat: Seq<u8>, at: int) -> bool {
    0 <= at && at + pat.len() <= hay.len() && hay.subrange(at, at + pat.len()) == pat
}

/// The first position from `from` on at which `pat` stands in `hay`.
pub open spec fn first_match(hay: Seq<u8>, pat: Seq<u8>, from: int) -> Option<int>
    decreases hay.len() - from + 1,
{
    if from < 0 || from + pat.len() > hay.len() {
        None
    } else if matches_at(hay, pat, from) {
        Some(from)
    } else {
        first_match(hay, pat, from + 1)
    }
}

/// Whether `r` begins with `pat`.
pub open spec fn starts_with(r: Seq<u8>, pat: Seq<u8>) -> bool {
    pat.len() <= r.len() && r.subrange(0, pat.len() as int) == pat
}

/// The opening of the region of a page that holds its article text.
pub open spec fn content_marker() -> Seq<u8> {
    "<div id=\"mw-content-text\"".spec_bytes()
}

/// The opening of a link to another page of the encyclopedia.
pub open spec fn anchor() -> Seq<u8> {
    "<a href=\"/wiki/".spec_bytes()
}

/// The double quote that ends a link's target.
pub open spec fn quote() -> Seq<u8> {
    "\"".spec_bytes()
}

/// What every article address begins with.
pub open spec fn article_prefix() -> Seq<u8> {
    "https://en.wikipedia.org/wiki/".spec_bytes()
}

/// Whether a link target names a page that is no article: a file, a
/// category, a special, talk, project, template, portal or help page.
pub open spec fn is_excluded(r: Seq<u8>) -> bool {
    ||| starts_with(r, "File:".spec_bytes())
    ||| starts_with(r, "Category:".spec_bytes())
    ||| starts_with(r, "Special:".spec_bytes())
    ||| starts_with(r, "Talk:".spec_bytes())
    ||| starts_with(r, "Wikipedia:".spec_bytes())
    ||| starts_with(r, "Template:".spec_bytes())
    ||| starts_with(r, "Portal:".spec_bytes())
    ||| starts_with(r, "Help:".spec_bytes())
}

/// The article addresses linked from position `pos` of a page on, in page
/// order. Each link runs from an anchor to the next double quote; the
/// search for the next anchor resumes at that quote. A link without a
/// closing quote ends the list.
pub open spec fn links_from(html: Seq<u8>, pos: int) -> Seq<Seq<u8>>
    decreases html.len() - pos,
    via links_from_decreases
{
    match first_match(html, anchor(), pos) {
        None => Seq::empty(),
        Some(i) => {
            let s = i + anchor().len();
            match first_match(html, quote(), s) {
                None => Seq::empty(),
                Some(e) => {
                    let r = html.subrange(s, e);
                    let head = if is_excluded(r) {
                        Seq::empty()
                    } else {
                        seq![article_prefix() + r]
                    };
                    head + links_from(html, e)
                },
            }
        },
    }
}

#[via_fn]
proof fn links_from_decreases(html: Seq<u8>, pos: int) {
    lemma_anchor_len();
    match first_match(html, anchor(), pos) {
        None => {},
        Some(i) => {
            lemma_first_match_bounds(html, anchor(), pos);
            let s = i + anchor().len();
            match first_match(html, quote(), s) {
                None => {},
                Some(e) => {
                    lemma_first_match_bounds(html, quote(), s);
                },
            }
        },
    }
}

/// The byte strings that a list of buffers holds.
pub open spec fn rows(v: Seq<Vec<u8>>) -> Seq<Seq<u8>> {
    Seq::new(v.len(), |i: int| v[i]@)
}

/// The links of a page: those of its content region, none where the page
/// has no such region.
pub open spec fn page_links(html: Seq<u8>) -> Seq<Seq<u8>> {
    match first_match(html, content_marker(), 0) {
        None => Seq::empty(),
        Some(b) => links_from(html, b),
    }
}

/// The anchor has fifteen bytes.
pub proof fn lemma_anchor_len()
    ensures
        anchor().len() == 15,
{
    broadcast use is_ascii_spec_bytes;

    reveal_strlit("<a href=\"/wiki/");
    assert(vstd::string::is_ascii("<a href=\"/wiki/"));
}

/// A first match lies at or after the place where the search began, and
/// the pattern stands there.
pub proof fn lemma_first_match_bounds(hay: Seq<u8>, pat: Seq<u8>, from: int)
    ensures
        first_match(hay, pat, from) matches Some(i) ==> from <= i && matches_at(hay, pat, i),
    decreases hay.len() - from + 1,
{
    if !(from < 0 || from + pat.len() > hay.len()) && !matches_at(hay, pat, from) {
        lemma_first_match_bounds(hay, pat, from + 1);
    }
}

/// Whether `pat` stands in `hay` at position `at`.
pub fn has_at(hay: &[u8], pat: &[u8], at: usize) -> (b: bool)
    ensures
        b == matches_at(hay@, pat@, at as int),
{
    if pat.len() > hay.len() || at > hay.len() - pat.len() {
        return false;
    }
    let mut k: usize = 0;
    while k < pat.len()
        invariant
            k <= pat@.len(),
            hay@.len() <= usize::MAX,
            at + pat@.len() <= hay@.len(),
            forall|j: int| 0 <= j < k ==> hay@[at + j] == pat@[j],
        decreases pat@.len() - k,
    {
        if hay[at + k] != pat[k] {
            assert(hay@.subrange(at as int, at + pat@.len())[k as int] != pat@[k as int]);
            return false;
        }
        k += 1;
    }
    assert(hay@.subrange(at as int, at + pat@.len()) =~= pat@);
    true
}

/// The first position from `from` on at which `pat` stands in `hay`.
pub fn find_from(hay: &[u8], pat: &[u8], from: usize) -> (found: Option<usize>)
    ensures
        match found {
            Some(i) => first_match(hay@, pat@, from as int) == Some(i as int),
            None => first_match(hay@, pat@, from as int) is None,
        },
{
    if pat.len() > hay.len() {
        return None;
    }
    let last = hay.len() - pat.len();
    let mut i: usize = from;
    while i <= last
        invariant
            from <= i,
            last + pat@.len() == hay@.len(),
            first_match(hay@, pat@, from as int) == first_match(hay@, pat@, i as int),
        decreases last + 1 - i,
    {
        if has_at(hay, pat, i) {
            return Some(i);
        }
        if i == last {
            assert(first_match(hay@, pat@, i + 1) is None);
            return None;
        }
        i += 1;
    }
    None
}

/// Whether the bytes of `hay` from `from` up to `to` begin with `pat`.
pub fn begins(hay: &[u8], from: usize, to: usize, pat: &[u8]) -> (b: bool)
    requires
        from <= to <= hay@.len(),
    ensures
        b == starts_with(hay@.subrange(from as int, to as int), pat@),
{
    let b = pat.len() <= to - from && has_at(hay, pat, from);
    proof {
        if pat@.len() <= to - from {
            assert(hay@.subrange(from as int, to as int).subrange(0, pat@.len() as int)
                =~= hay@.subrange(from as int, from + pat@.len()));
        }
    }
    b
}

/// Whether the link target that runs from `from` up to `to` names a page
/// that is no article.
pub fn excluded(hay: &[u8], from: usize, to: usize) -> (b: bool)
    requires
        from <= to <= hay@.len(),
    ensures
        b == is_excluded(hay@.subrange(from as int, to as int)),
{
    begins(hay, from, to, "File:".as_bytes()) || begins(hay, from, to, "Category:".as_bytes())
        || begins(hay, from, to, "Special:".as_bytes()) || begins(
        hay,
        from,
        to,
        "Talk:".as_bytes(),
    ) || begins(hay, from, to, "Wikipedia:".as_bytes()) || begins(
        hay,
        from,
        to,
        "Template:".as_bytes(),
    ) || begins(hay, from, to, "Portal:".as_bytes()) || begins(hay, from, to, "Help:".as_bytes())
}

/// Adds the bytes of `src` from `from` up to `to` to the end of `dst`.
pub fn append(dst: &mut Vec<u8>, src: &[u8], from: usize, to: usize)
    requires
        from <= to <= src@.len(),
    ensures
        final(dst)@ == old(dst)@ + src@.subrange(from as int, to as int),
{
    let mut k: usize = from;
    assert(dst@ =~= old(dst)@ + src@.subrange(from as int, k as int));
    while k < to
        invariant
            from <= k <= to <= src@.len(),
            dst@ == old(dst)@ + src@.subrange(from as int, k as int),
        decreases to - k,
    {
        dst.push(src[k]);
        assert(dst@ =~= old(dst)@ + src@.subrange(from as int, k + 1));
        k += 1;
    }
}

/// Whether `url` is the address of an article: whether it begins as every
/// article address does.
pub fn is_article_url(url: &str) -> (b: bool)
    ensures
        b == starts_with(url.spec_bytes(), article_prefix()),
{
    let bytes = url.as_bytes();
    let b = begins(bytes, 0, bytes.len(), "https://en.wikipedia.org/wiki/".as_bytes());
    assert(bytes@.subrange(0, bytes@.len() as int) =~= bytes@);
    b
}

/// The article addresses that a page links to, in page order: the links
/// of its content region that lead to articles, each as a full address.
/// A page without a content region has none.
pub fn extract_links(html: &[u8]) -> (links: Vec<Vec<u8>>)
    ensures
        rows(links@) == page_links(html@),
{
    let mut links: Vec<Vec<u8>> = Vec::new();
    let begin = match find_from(html, "<div id=\"mw-content-text\"".as_bytes(), 0) {
        Some(b) => b,
        None => {
            assert(rows(links@) =~= Seq::<Seq<u8>>::empty());
            return links;
        },
    };
    let anchor_bytes = "<a href=\"/wiki/".as_bytes();
    let quote_bytes = "\"".as_bytes();
    let mut pos: usize = begin;
    let n = html.len();
    assert(rows(links@) =~= Seq::<Seq<u8>>::empty());
    loop
        invariant
            pos <= html@.len() || first_match(html@, anchor(), pos as int) is None,
            n == html@.len(),
            anchor_bytes@ == anchor(),
            quote_bytes@ == quote(),
            rows(links@) + links_from(html@, pos as int) == page_links(html@),
        decreases html@.len() - pos,
    {
        proof {
            lemma_anchor_len();
            lemma_first_match_bounds(html@, anchor(), pos as int);
        }
        let i = match find_from(html, anchor_bytes, pos) {
            Some(i) => i,
            None => {
                assert(rows(links@) + Seq::<Seq<u8>>::empty() =~= rows(links@));
                return links;
            },
        };
        let s = i + anchor_bytes.len();
        proof {
            lemma_first_match_bounds(html@, quote(), s as int);
        }
        let e = match find_from(html, quote_bytes, s) {
            Some(e) => e,
            None => {
                assert(rows(links@) + Seq::<Seq<u8>>::empty() =~= rows(links@));
                return links;
            },
        };
        let ghost before = rows(links@);
        let ghost held = links@;
        let ghost r = html@.subrange(s as int, e as int);
        if !excluded(html, s, e) {
            let prefix = "https://en.wikipedia.org/wiki/".as_bytes();
            let mut link: Vec<u8> = Vec::new();
            append(&mut link, prefix, 0, prefix.len());
            append(&mut link, html, s, e);
            assert(link@ =~= article_prefix() + r);
            links.push(link);
            assert(links@ == held.push(link));
            assert(rows(links@) =~= before + seq![article_prefix() + r]);
        } else {
            assert(rows(links@) =~= before + Seq::<Seq<u8>>::empty());
        }
        proof {
            let head = if is_excluded(r) {
                Seq::<Seq<u8>>::empty()
            } else {
                seq![article_prefix() + r]
            };
            assert(links_from(html@, pos as int) == head + links_from(html@, e as int));
            assert(rows(links@) + links_from(html@, e as int) =~= before + (head
                + links_from(html@, e as int)));
        }
        pos = e;
    }
}

} // verus!
