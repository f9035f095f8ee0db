//! What an EPUB's documents become: titled chapters of paragraphs.

use vstd::prelude::*;
use crate::book::{blanks, is_blank, strip_all, stripped, RawChapter, RawChapterView, raw_views};
use crate::chars::{chars_of, find_char, find_run_end, found_at, found_in, index_of, join, join_chars, lemma_run_end, other_than, part, run_end, same, stands_at, stands_in, swap_char, swapped, text_of, texts, words_from, words_where};
use crate::rows::{lemma_pick_none, lemma_pick_push};

verus! {

/// An element found in a document: the names of what is around it, the innermost
/// first, and the strings inside it in document order. What is around it and is no
/// element has an empty name.
#[derive(Debug, Clone)]
pub struct Element {
    pub around: Vec<String>,
    pub strings: Vec<String>,
}

/// What an [`Element`] holds.
#[verifier::ext_equal]
pub struct ElementView {
    pub around: Seq<Seq<char>>,
    pub strings: Seq<Seq<char>>,
}

impl View for Element {
    type V = ElementView;

    open spec fn view(&self) -> ElementView {
        ElementView { around: texts(self.around@), strings: texts(self.strings@) }
    }
}

/// What a vector of elements holds.
pub open spec fn element_views(v: Seq<Element>) -> Seq<ElementView> {
    v.map_values(|e: Element| e@)
}

/// The elements that `selector` selects in `html`, in the order in which the parsed
/// document holds them; nothing where the selector itself cannot be read.
pub uninterp spec fn selected(html: Seq<char>, selector: Seq<char>) -> Option<
    Seq<(Seq<Seq<char>>, Seq<Seq<char>>)>,
>;

/// An element as [`selected`] names it.
pub open spec fn element_pair(e: ElementView) -> (Seq<Seq<char>>, Seq<Seq<char>>) {
    (e.around, e.strings)
}

/// `scraper::Html::parse_document` and `Html::select` with the selector that
/// `scraper::Selector::parse` reads: what is found depends on the document and
/// the selector alone, the elements come in the order in which the parsed document
/// holds its nodes, and each comes with the names of its ancestors, an
/// empty one for an ancestor that is no element, and the strings of its subtree.
/// How HTML is parsed is not restated here.
#[verifier::external_body]
fn select(html: &str, selector: &str) -> (r: Option<Vec<Element>>)
    ensures
        match r {
            Some(v) => selected(html@, selector@) == Some(
                element_views(v@).map_values(|e: ElementView| element_pair(e)),
            ),
            None => selected(html@, selector@) is None,
        },
{
    let sel = scraper::Selector::parse(selector).ok()?;
    let doc = scraper::Html::parse_document(html);
    let found = doc.select(&sel).map(|e| Element {
        around: e.ancestors().map(|n| n.value().as_element().map(|t| t.name().to_string()).unwrap_or_default()).collect(),
        strings: e.text().map(|t| t.to_string()).collect(),
    });
    Some(found.collect())
}

// ------------------------------------------------------------------ paragraphs

/// The elements whose text becomes a paragraph.
pub open spec fn kept_elements() -> Seq<char> {
    "p, h1, h2, h3, blockquote"@
}

/// The elements whose whole subtree is left out.
pub open spec fn noise(name: Seq<char>) -> bool {
    name == "script"@ || name == "style"@ || name == "nav"@ || name == "header"@ || name
        == "footer"@
}

fn is_noise(name: &[char]) -> (r: bool)
    ensures
        r == noise(name@),
{
    same(name, &chars_of("script")) || same(name, &chars_of("style")) || same(
        name,
        &chars_of("nav"),
    ) || same(name, &chars_of("header")) || same(name, &chars_of("footer"))
}

/// `s` with each run of blanks made one space, and none at the ends.
pub open spec fn collapsed(s: Seq<char>) -> Seq<char> {
    join(words_from(s, blanks(), 0), " "@)
}

/// The text of one element: its strings, stripped, the empty ones dropped,
/// joined with spaces, and the blanks inside them collapsed.
pub open spec fn element_text(strings: Seq<Seq<char>>) -> Seq<char> {
    collapsed(join(stripped(strings), " "@))
}

/// Whether an element lies inside one of the noise subtrees.
pub open spec fn in_noise(around: Seq<Seq<char>>) -> bool {
    exists|i: int| 0 <= i < around.len() && noise(#[trigger] around[i])
}

/// The paragraphs of the first `n` of `found`: the text of each element outside
/// the noise that has any. An element nested in another counts with it, so the
/// text of a quoted paragraph appears for the quotation and for itself.
pub open spec fn paragraphs_upto(found: Seq<(Seq<Seq<char>>, Seq<Seq<char>>)>, n: nat) -> Seq<
    Seq<char>,
>
    decreases n,
{
    if n == 0 || n > found.len() {
        Seq::empty()
    } else {
        let before = paragraphs_upto(found, (n - 1) as nat);
        let (around, strings) = found[n - 1];
        if in_noise(around) || element_text(strings).len() == 0 {
            before
        } else {
            before.push(element_text(strings))
        }
    }
}

/// The paragraphs of what was selected in a document.
pub open spec fn paragraphs_from(found: Option<Seq<(Seq<Seq<char>>, Seq<Seq<char>>)>>) -> Seq<
    Seq<char>,
> {
    match found {
        Some(es) => paragraphs_upto(es, es.len()),
        None => Seq::empty(),
    }
}

fn is_in_noise(around: &Vec<String>) -> (r: bool)
    ensures
        r == in_noise(texts(around@)),
{
    let mut i: usize = 0;
    while i < around.len()
        invariant
            i <= around@.len(),
            forall|k: int| 0 <= k < i ==> !noise(#[trigger] texts(around@)[k]),
        decreases around@.len() - i,
    {
        assert(texts(around@)[i as int] == around@[i as int]@);
        if is_noise(&chars_of(around[i].as_str())) {
            return true;
        }
        i += 1;
    }
    false
}

fn text_of_element(strings: &Vec<String>) -> (r: Vec<char>)
    ensures
        r@ == element_text(texts(strings@)),
{
    let kept = strip_all(&crate::chars::chars_of_all(strings));
    let space = chars_of(" ");
    let line = join_chars(&kept, &space);
    join_chars(&words_where(&line, is_blank, Ghost(blanks())), &space)
}

/// The paragraphs of the elements found in a document.
pub fn element_paragraphs(found: &Vec<Element>) -> (r: Vec<String>)
    ensures
        texts(r@) == paragraphs_upto(
            element_views(found@).map_values(|e: ElementView| element_pair(e)),
            found@.len(),
        ),
        texts(r@) == element_views(found@).filter(
            |e: ElementView| heard(e.around) && element_text(e.strings).len() > 0,
        ).map_values(|e: ElementView| element_text(e.strings)),
{
    proof {
        law_every_element_is_read(element_views(found@));
    }
    let ghost es = element_views(found@).map_values(|e: ElementView| element_pair(e));
    let mut r: Vec<String> = Vec::new();
    let mut i: usize = 0;
    assert(texts(r@) =~= Seq::<Seq<char>>::empty());
    while i < found.len()
        invariant
            i <= found@.len(),
            es == element_views(found@).map_values(|e: ElementView| element_pair(e)),
            texts(r@) == paragraphs_upto(es, i as nat),
        decreases found@.len() - i,
    {
        let e = &found[i];
        assert(es[i as int] == (texts(e.around@), texts(e.strings@)));
        if !is_in_noise(&e.around) {
            let t = text_of_element(&e.strings);
            if t.len() > 0 {
                let ghost before = texts(r@);
                r.push(text_of(&t));
                assert(texts(r@) =~= before.push(t@));
            }
        }
        i += 1;
    }
    r
}

/// The paragraphs of an HTML document.
pub fn paragraphs(html: &str) -> (r: Vec<String>)
    ensures
        texts(r@) == paragraphs_from(selected(html@, kept_elements())),
{
    match select(html, "p, h1, h2, h3, blockquote") {
        Some(found) => element_paragraphs(&found),
        None => {
            let none: Vec<String> = Vec::new();
            assert(texts(none@) =~= Seq::<Seq<char>>::empty());
            none
        },
    }
}

// -------------------------------------------------------------------- chapters

/// An entry of the table of contents.
#[derive(Debug)]
pub struct NavPoint {
    pub content: String,
    pub label: String,
    pub children: Vec<NavPoint>,
}

/// A spine document as it stands in the archive; one whose file is missing has
/// no text.
#[derive(Debug, Clone)]
pub struct SpineDoc {
    pub path: String,
    pub mime: String,
    pub html: String,
}

/// A path inside the archive, relative to the directory of the package file.
pub open spec fn href_of(base: Seq<char>, path: Seq<char>) -> Seq<char> {
    let s = swapped(path, '\\', '/');
    let b = swapped(base, '\\', '/');
    if b.len() > 0 && found_at(s, b, 0) {
        let rest = s.skip(b.len() as int);
        rest.skip(run_end(rest, |c: char| c == '/', 0))
    } else {
        s
    }
}

fn is_slash(c: char) -> (r: bool)
    ensures
        r == (c == '/'),
{
    c == '/'
}

/// A path inside the archive, relative to the directory of the package file.
pub fn href(base: &str, path: &str) -> (r: String)
    ensures
        r@ == href_of(base@, path@),
{
    let s = swap_char(&chars_of(path), '\\', '/');
    let b = swap_char(&chars_of(base), '\\', '/');
    if b.len() > 0 && stands_at(&s, &b, 0) {
        let rest = part(&s, b.len(), s.len());
        assert(rest@ =~= s@.skip(b@.len() as int));
        let k = find_run_end(&rest, is_slash, 0, Ghost(|c: char| c == '/'));
        let out = part(&rest, k, rest.len());
        assert(out@ =~= rest@.skip(k as int));
        text_of(&out)
    } else {
        text_of(&s)
    }
}

/// `s` up to its first `#`.
pub open spec fn without_fragment(s: Seq<char>) -> Seq<char> {
    s.take(index_of(s, '#', 0))
}

/// A titled document: where it is, and what the table of contents calls it.
pub type Title = (Seq<char>, Seq<char>);

/// The titles of a list of entries, each entry before those nested in it.
pub open spec fn titles_of(base: Seq<char>, points: Seq<NavPoint>) -> Seq<Title>
    decreases points,
{
    titles_upto(base, points, points.len())
}

/// The titles of the first `n` of a list of entries.
pub open spec fn titles_upto(base: Seq<char>, points: Seq<NavPoint>, n: nat) -> Seq<Title>
    decreases points, n,
{
    if n == 0 || n > points.len() {
        Seq::empty()
    } else {
        let p = points[n - 1];
        titles_upto(base, points, (n - 1) as nat) + (seq![
            (without_fragment(href_of(base, p.content@)), p.label@),
        ] + titles_upto(base, p.children@, p.children@.len()))
    }
}

/// What pairs of strings hold.
pub open spec fn title_views(v: Seq<(String, String)>) -> Seq<Title> {
    v.map_values(|t: (String, String)| (t.0@, t.1@))
}

/// The titles that a table of contents gives, in its order, each entry before
/// those nested in it.
pub fn titles(base: &str, points: &Vec<NavPoint>) -> (r: Vec<(String, String)>)
    ensures
        title_views(r@) == titles_upto(base@, points@, points@.len()),
    decreases points,
{
    let mut r: Vec<(String, String)> = Vec::new();
    let mut i: usize = 0;
    assert(title_views(r@) =~= Seq::<Title>::empty());
    while i < points.len()
        invariant
            i <= points@.len(),
            title_views(r@) == titles_upto(base@, points@, i as nat),
        decreases points@.len() - i,
    {
        let p = &points[i];
        let full = chars_of(href(base, p.content.as_str()).as_str());
        let cut = find_char(&full, '#', 0);
        let name = text_of(&part(&full, 0, cut));
        assert(name@ =~= without_fragment(href_of(base@, p.content@)));
        let ghost before = title_views(r@);
        let ghost own = seq![(name@, p.label@)];
        r.push((name, p.label.clone()));
        assert(title_views(r@) =~= before + own);
        let nested = titles(base, &p.children);
        let ghost ns = title_views(nested@);
        let mut k: usize = 0;
        while k < nested.len()
            invariant
                k <= nested@.len(),
                ns == title_views(nested@),
                title_views(r@) == before + own + ns.take(k as int),
            decreases nested@.len() - k,
        {
            let ghost sofar = title_views(r@);
            let t = &nested[k];
            r.push((t.0.clone(), t.1.clone()));
            assert(title_views(r@) =~= sofar.push(ns[k as int]));
            assert(ns.take(k + 1) =~= ns.take(k as int).push(ns[k as int]));
            k += 1;
        }
        assert(ns.take(k as int) =~= ns);
        assert(before + own + ns =~= before + (own + ns));
        i += 1;
    }
    r
}

/// What the last of `titles` to name `name` calls it.
pub open spec fn title_for(titles: Seq<Title>, name: Seq<char>) -> Option<Seq<char>>
    decreases titles.len(),
{
    if titles.len() == 0 {
        None
    } else if titles.last().0 == name {
        Some(titles.last().1)
    } else {
        title_for(titles.drop_last(), name)
    }
}

/// A document's paragraphs under a title: the one that the table of contents
/// gives, or the start of the first paragraph where that gives none.
pub open spec fn titled(titles: Seq<Title>, name: Seq<char>, paras: Seq<Seq<char>>) -> Option<
    RawChapterView,
> {
    if paras.len() == 0 {
        None
    } else {
        let start = if paras[0].len() <= 60 {
            paras[0]
        } else {
            paras[0].take(60)
        };
        let title = match title_for(titles, name) {
            Some(t) if t.len() > 0 => t,
            _ => start,
        };
        Some(RawChapterView { id: name, title, paragraphs: paras })
    }
}

fn find_title(titles: &Vec<(String, String)>, name: &[char]) -> (r: Option<String>)
    ensures
        match r {
            Some(t) => title_for(title_views(titles@), name@) == Some(t@),
            None => title_for(title_views(titles@), name@) is None,
        },
{
    let ghost ts = title_views(titles@);
    let mut i: usize = titles.len();
    assert(ts.take(i as int) =~= ts);
    while i > 0
        invariant
            i <= titles@.len(),
            ts == title_views(titles@),
            title_for(ts, name@) == title_for(ts.take(i as int), name@),
        decreases i,
    {
        assert(ts.take(i as int).drop_last() =~= ts.take(i - 1));
        assert(ts[i - 1] == (titles@[i - 1].0@, titles@[i - 1].1@));
        if same(&chars_of(titles[i - 1].0.as_str()), name) {
            return Some(titles[i - 1].1.clone());
        }
        i -= 1;
    }
    None
}

/// A document's paragraphs as a chapter; see [`titled`].
pub fn raw_chapter(titles: &Vec<(String, String)>, name: &str, paras: Vec<String>) -> (r: Option<
    RawChapter,
>)
    ensures
        match r {
            Some(c) => titled(title_views(titles@), name@, texts(paras@)) == Some(c@),
            None => titled(title_views(titles@), name@, texts(paras@)) is None,
        },
{
    if paras.len() == 0 {
        return None;
    }
    let first = chars_of(paras[0].as_str());
    assert(texts(paras@)[0] == first@);
    let cut: usize = if first.len() <= 60 {
        first.len()
    } else {
        60
    };
    let start = part(&first, 0, cut);
    assert(start@ =~= if first@.len() <= 60 {
        first@
    } else {
        first@.take(60)
    });
    let title = match find_title(titles, &chars_of(name)) {
        Some(t) => if t.as_str().is_empty() {
            text_of(&start)
        } else {
            t
        },
        None => text_of(&start),
    };
    Some(RawChapter { id: name.to_owned(), title, paragraphs: paras })
}

/// The chapters of the first `n` spine documents: those that are HTML and have
/// paragraphs.
pub open spec fn chapters_upto(
    base: Seq<char>,
    toc: Seq<NavPoint>,
    spine: Seq<SpineDoc>,
    n: nat,
) -> Seq<RawChapterView>
    decreases n,
{
    if n == 0 || n > spine.len() {
        Seq::empty()
    } else {
        let before = chapters_upto(base, toc, spine, (n - 1) as nat);
        let d = spine[n - 1];
        let paras = paragraphs_from(selected(d.html@, kept_elements()));
        match titled(titles_of(base, toc), href_of(base, d.path@), paras) {
            Some(c) if found_in(d.mime@, "html"@) => before.push(c),
            _ => before,
        }
    }
}

/// The chapters of a book whose parts have been read from its archive.
pub fn chapters_of(base: &str, toc: &Vec<NavPoint>, spine: &Vec<SpineDoc>) -> (r: Vec<RawChapter>)
    ensures
        raw_views(r@) == chapters_upto(base@, toc@, spine@, spine@.len()),
{
    let names = titles(base, toc);
    let html = chars_of("html");
    let mut r: Vec<RawChapter> = Vec::new();
    let mut i: usize = 0;
    assert(raw_views(r@) =~= Seq::<RawChapterView>::empty());
    while i < spine.len()
        invariant
            i <= spine@.len(),
            html@ == "html"@,
            title_views(names@) == titles_of(base@, toc@),
            raw_views(r@) == chapters_upto(base@, toc@, spine@, i as nat),
        decreases spine@.len() - i,
    {
        let d = &spine[i];
        if stands_in(&chars_of(d.mime.as_str()), &html) {
            let paras = paragraphs(d.html.as_str());
            let name = href(base, d.path.as_str());
            match raw_chapter(&names, name.as_str(), paras) {
                Some(c) => {
                    let ghost before = raw_views(r@);
                    r.push(c);
                    assert(raw_views(r@) =~= before.push(c@));
                },
                None => {},
            }
        }
        i += 1;
    }
    r
}

// ---------------------------------------------------------------------------- laws

/// Whether an element stands outside what is not read: scripts, styles, navigation,
/// headers and footers.
pub open spec fn heard(around: Seq<Seq<char>>) -> bool {
    !around.contains("script"@) && !around.contains("style"@) && !around.contains("nav"@)
        && !around.contains("header"@) && !around.contains("footer"@)
}

/// Every element that stands outside what is not read and has text gives its text: the
/// paragraphs are these texts, in order, as many as there are such elements.
pub proof fn law_every_element_is_read(found: Seq<ElementView>)
    ensures
        ({
            let p = |e: ElementView| heard(e.around) && element_text(e.strings).len() > 0;
            let paras = paragraphs_upto(
                found.map_values(|e: ElementView| element_pair(e)),
                found.len(),
            );
            &&& paras == found.filter(p).map_values(|e: ElementView| element_text(e.strings))
            &&& paras.len() == found.filter(p).len()
        }),
{
    let p = |e: ElementView| heard(e.around) && element_text(e.strings).len() > 0;
    let f = |e: ElementView| element_text(e.strings);
    lemma_every_element(found, found.len());
    lemma_pick_none(found, p, f);
}

proof fn lemma_every_element(found: Seq<ElementView>, n: nat)
    requires
        n <= found.len(),
    ensures
        paragraphs_upto(found.map_values(|e: ElementView| element_pair(e)), n) == found.take(
            n as int,
        ).filter(
            |e: ElementView| heard(e.around) && element_text(e.strings).len() > 0,
        ).map_values(|e: ElementView| element_text(e.strings)),
    decreases n,
{
    let p = |e: ElementView| heard(e.around) && element_text(e.strings).len() > 0;
    let f = |e: ElementView| element_text(e.strings);
    lemma_pick_none(found, p, f);
    if n > 0 {
        lemma_every_element(found, (n - 1) as nat);
        lemma_pick_push(found, n as int, p, f);
        let around = found[n - 1].around;
        assert(in_noise(around) == !heard(around)) by {
            if in_noise(around) {
                let i = choose|i: int| 0 <= i < around.len() && noise(#[trigger] around[i]);
                assert(around.contains(around[i]));
            }
            if !heard(around) {
                let w = if around.contains("script"@) {
                    "script"@
                } else if around.contains("style"@) {
                    "style"@
                } else if around.contains("nav"@) {
                    "nav"@
                } else if around.contains("header"@) {
                    "header"@
                } else {
                    "footer"@
                };
                let i = choose|i: int| 0 <= i < around.len() && #[trigger] around[i] == w;
                assert(noise(around[i]));
            }
        }
    }
}

/// The titles of two tables of contents after one another are those of the one and
/// then those of the other; and those of one entry are its own, under the document it
/// points at, and then those of the entries below it.
pub proof fn law_titles_add_up(base: Seq<char>, a: Seq<NavPoint>, b: Seq<NavPoint>, p: NavPoint)
    ensures
        titles_of(base, a + b) == titles_of(base, a) + titles_of(base, b),
        titles_of(base, seq![p]).len() == 1 + titles_of(base, p.children@).len(),
        titles_of(base, seq![p])[0].1 == p.label@,
        ({
            let file = href_of(base, p.content@);
            let name = titles_of(base, seq![p])[0].0;
            &&& !name.contains('#')
            &&& name == file || (exists|rest: Seq<char>| file == name + seq!['#'] + rest)
        }),
        titles_of(base, seq![p]).skip(1) == titles_of(base, p.children@),
{
    lemma_titles_prefix(base, a, b, a.len());
    lemma_titles_suffix(base, a, b, b.len());
    let one = seq![p];
    assert(titles_upto(base, one, 0) =~= Seq::<Title>::empty());
    let file = href_of(base, p.content@);
    let k = index_of(file, '#', 0);
    lemma_run_end(file, other_than('#'), 0);
    let ts = titles_of(base, one);
    let below = titles_upto(base, p.children@, p.children@.len());
    assert(one[0] == p);
    assert(ts == titles_upto(base, one, 0) + (seq![(without_fragment(file), p.label@)] + below));
    assert(ts =~= seq![(without_fragment(file), p.label@)] + below);
    assert(ts.skip(1) =~= below);
    let name = ts[0].0;
    assert(name == file.take(k));
    if k < file.len() {
        assert(file =~= name + seq!['#'] + file.skip(k + 1));
    } else {
        assert(name =~= file);
    }
}

proof fn lemma_titles_prefix(base: Seq<char>, a: Seq<NavPoint>, b: Seq<NavPoint>, n: nat)
    requires
        n <= a.len(),
    ensures
        titles_upto(base, a + b, n) == titles_upto(base, a, n),
    decreases n,
{
    if n > 0 {
        lemma_titles_prefix(base, a, b, (n - 1) as nat);
        assert((a + b)[n - 1] == a[n - 1]);
    }
}

proof fn lemma_titles_suffix(base: Seq<char>, a: Seq<NavPoint>, b: Seq<NavPoint>, n: nat)
    requires
        n <= b.len(),
    ensures
        titles_upto(base, a + b, a.len() + n) == titles_upto(base, a, a.len()) + titles_upto(
            base,
            b,
            n,
        ),
    decreases n,
{
    if n == 0 {
        lemma_titles_prefix(base, a, b, a.len());
        assert(titles_upto(base, b, 0) =~= Seq::<Title>::empty());
        assert(titles_upto(base, a, a.len()) + titles_upto(base, b, 0) =~= titles_upto(
            base,
            a,
            a.len(),
        ));
    } else {
        lemma_titles_suffix(base, a, b, (n - 1) as nat);
        assert((a + b)[a.len() + n - 1] == b[n - 1]);
        let p = b[n - 1];
        let one = seq![(without_fragment(href_of(base, p.content@)), p.label@)] + titles_upto(
            base,
            p.children@,
            p.children@.len(),
        );
        assert((titles_upto(base, a, a.len()) + titles_upto(base, b, (n - 1) as nat)) + one
            =~= titles_upto(base, a, a.len()) + (titles_upto(base, b, (n - 1) as nat) + one));
    }
}

/// Where several entries point at a document, the last of them names it; and where
/// none does, it has no name.
pub proof fn law_the_last_title_holds(titles: Seq<Title>, name: Seq<char>)
    ensures
        match title_for(titles, name) {
            Some(t) => exists|k: int|
                0 <= k < titles.len() && #[trigger] titles[k] == (name, t) && forall|j: int|
                    k < j < titles.len() ==> (#[trigger] titles[j]).0 != name,
            None => forall|j: int| 0 <= j < titles.len() ==> (#[trigger] titles[j]).0 != name,
        },
    decreases titles.len(),
{
    if titles.len() > 0 {
        let last = titles.len() - 1;
        if titles.last().0 == name {
            assert(titles[last] == (name, titles.last().1));
        } else {
            let before = titles.drop_last();
            law_the_last_title_holds(before, name);
            if let Some(t) = title_for(before, name) {
                let k = choose|k: int|
                    0 <= k < before.len() && #[trigger] before[k] == (name, t) && forall|j: int|
                        k < j < before.len() ==> (#[trigger] before[j]).0 != name;
                assert(titles[k] == (name, t));
                assert forall|j: int| k < j < titles.len() implies (#[trigger] titles[j]).0
                    != name by {
                    if j < last {
                        assert(before[j] == titles[j]);
                    }
                }
            } else {
                assert forall|j: int| 0 <= j < titles.len() implies (#[trigger] titles[j]).0
                    != name by {
                    if j < last {
                        assert(before[j] == titles[j]);
                    }
                }
            }
        }
    }
}

/// Every document of the spine that is HTML and has paragraphs is a chapter, in order,
/// with all its paragraphs and under its own name; and nothing else is.
pub proof fn law_every_document_is_a_chapter(
    base: Seq<char>,
    toc: Seq<NavPoint>,
    spine: Seq<SpineDoc>,
)
    ensures
        ({
            let paras = |d: SpineDoc| paragraphs_from(selected(d.html@, kept_elements()));
            let kept = spine.filter(
                |d: SpineDoc| found_in(d.mime@, "html"@) && paras(d).len() > 0,
            );
            let all = chapters_upto(base, toc, spine, spine.len());
            &&& all.len() == kept.len()
            &&& forall|k: int|
                0 <= k < all.len() ==> {
                    let d = kept[k];
                    &&& (#[trigger] all[k]).id == href_of(base, d.path@)
                    &&& all[k].paragraphs == paras(d)
                    &&& match title_for(titles_of(base, toc), href_of(base, d.path@)) {
                        Some(t) if t.len() > 0 => all[k].title == t,
                        _ => all[k].title.is_prefix_of(paras(d)[0]) && (all[k].title.len() == 60
                            || all[k].title == paras(d)[0] && all[k].title.len() < 60),
                    }
                }
        }),
{
    let paras = |d: SpineDoc| paragraphs_from(selected(d.html@, kept_elements()));
    let p = |d: SpineDoc| found_in(d.mime@, "html"@) && paras(d).len() > 0;
    let f = |d: SpineDoc| titled(titles_of(base, toc), href_of(base, d.path@), paras(d))->0;
    lemma_every_document(base, toc, spine, spine.len());
    lemma_pick_none(spine, p, f);
    let all = chapters_upto(base, toc, spine, spine.len());
    assert(all == spine.filter(p).map_values(f));
    assert forall|k: int| 0 <= k < all.len() implies {
        let d = spine.filter(p)[k];
        &&& (#[trigger] all[k]).id == href_of(base, d.path@)
        &&& all[k].paragraphs == paras(d)
        &&& match title_for(titles_of(base, toc), href_of(base, d.path@)) {
            Some(t) if t.len() > 0 => all[k].title == t,
            _ => all[k].title.is_prefix_of(paras(d)[0]) && (all[k].title.len() == 60 || all[k].title
                == paras(d)[0] && all[k].title.len() < 60),
        }
    } by {
        spine.lemma_filter_pred(p, k);
        let d = spine.filter(p)[k];
        assert(p(d));
        assert(all[k] == f(d));
    }
}

proof fn lemma_every_document(
    base: Seq<char>,
    toc: Seq<NavPoint>,
    spine: Seq<SpineDoc>,
    n: nat,
)
    requires
        n <= spine.len(),
    ensures
        ({
            let paras = |d: SpineDoc| paragraphs_from(selected(d.html@, kept_elements()));
            chapters_upto(base, toc, spine, n) == spine.take(n as int).filter(
                |d: SpineDoc| found_in(d.mime@, "html"@) && paras(d).len() > 0,
            ).map_values(
                |d: SpineDoc| titled(titles_of(base, toc), href_of(base, d.path@), paras(d))->0,
            )
        }),
    decreases n,
{
    let paras = |d: SpineDoc| paragraphs_from(selected(d.html@, kept_elements()));
    let p = |d: SpineDoc| found_in(d.mime@, "html"@) && paras(d).len() > 0;
    let f = |d: SpineDoc| titled(titles_of(base, toc), href_of(base, d.path@), paras(d))->0;
    lemma_pick_none(spine, p, f);
    if n > 0 {
        lemma_every_document(base, toc, spine, (n - 1) as nat);
        lemma_pick_push(spine, n as int, p, f);
    }
}

/// A document below the book's folder is named by its path from there, with no slash
/// in front; one elsewhere by its whole path.
pub proof fn law_documents_are_named_from_the_base(
    base: Seq<char>,
    slashes: nat,
    name: Seq<char>,
    other: Seq<char>,
)
    requires
        base.len() > 0,
        !base.contains('\\'),
        !name.contains('\\'),
        !other.contains('\\'),
        name.len() > 0 ==> name[0] != '/',
        !base.is_prefix_of(other),
    ensures
        href_of(base, base + Seq::new(slashes, |i: int| '/') + name) == name,
        href_of(base, other) == other,
{
    let bar = Seq::new(slashes, |i: int| '/');
    let path = base + bar + name;
    assert(swapped(base, '\\', '/') =~= base) by {
        assert forall|i: int| 0 <= i < base.len() implies base[i] != '\\' by {
            assert(base.contains(base[i]));
        }
    }
    assert(swapped(path, '\\', '/') =~= path) by {
        assert forall|i: int| 0 <= i < path.len() implies path[i] != '\\' by {
            if i < base.len() {
                assert(base.contains(base[i]));
            } else if i >= base.len() + slashes {
                assert(name.contains(name[i - base.len() - slashes]));
            }
        }
    }
    assert(swapped(other, '\\', '/') =~= other) by {
        assert forall|i: int| 0 <= i < other.len() implies other[i] != '\\' by {
            assert(other.contains(other[i]));
        }
    }
    assert(path.subrange(0, base.len() as int) =~= base);
    let rest = path.skip(base.len() as int);
    assert(rest =~= bar + name);
    let slash = |c: char| c == '/';
    lemma_run_end(rest, slash, 0);
    let e = run_end(rest, slash, 0);
    if e < slashes {
        assert(rest[e] == '/');
    }
    if e > slashes {
        assert(rest[slashes as int] == name[0]);
    }
    assert(rest.skip(e) =~= name);
    if found_at(other, base, 0) {
        assert(other.subrange(0, base.len() as int) == base);
        assert(base.is_prefix_of(other));
    }
}

} // verus!
