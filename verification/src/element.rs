//! The text leaf of a layout tree.

use vstd::prelude::*;

use crate::alignment::Alignment;
use crate::font::{font_available, measured_width, FontDict, FontRef, FontView};
use crate::margin::Margin;
use crate::width::Width;

verus! {

/// A text leaf.  Before instantiation `item` may be a placeholder name
/// rather than literal text (the `Ref` variant of the tree says which).
/// `text_width` stays `Fill` until the font-filling stage attaches the
/// measured width of `item`; `is_fill` marks elements whose declared width
/// was unresolved and got assigned by the bound stage rather than authored.
/// `url` carries a hyperlink target picked up during instantiation.
#[derive(Debug, Clone)]
pub struct Element {
    pub item: String,
    pub margin: Margin,
    pub alignment: Alignment,
    pub width: Width,
    pub text_width: Width,
    pub font: FontRef,
    pub is_fill: bool,
    pub url: Option<String>,
}

/// The mathematical model of an element: the same fields with text as
/// sequences of characters.
#[verifier::ext_equal]
pub struct ElementView {
    pub item: Seq<char>,
    pub margin: Margin,
    pub alignment: Alignment,
    pub width: Width,
    pub text_width: Width,
    pub font: FontView,
    pub is_fill: bool,
    pub url: Option<Seq<char>>,
}

impl View for Element {
    type V = ElementView;

    open spec fn view(&self) -> ElementView {
        ElementView {
            item: self.item@,
            margin: self.margin,
            alignment: self.alignment,
            width: self.width,
            text_width: self.text_width,
            font: self.font@,
            is_fill: self.is_fill,
            url: match self.url {
                Some(u) => Some(u@),
                None => None,
            },
        }
    }
}

/// A copy of an optional string with the same model.
pub fn clone_opt_string(o: &Option<String>) -> (r: Option<String>)
    ensures
        r is Some <==> o is Some,
        r matches Some(s) ==> o matches Some(t) && s@ == t@,
{
    match o {
        Some(s) => Some(s.clone()),
        None => None,
    }
}

impl Element {
    /// A copy of this element with the same model.
    pub fn duplicate(&self) -> (r: Element)
        ensures
            r@ == self@,
    {
        Element {
            item: self.item.clone(),
            margin: self.margin,
            alignment: self.alignment,
            width: self.width,
            text_width: self.text_width,
            font: self.font.duplicate(),
            is_fill: self.is_fill,
            url: clone_opt_string(&self.url),
        }
    }

    /// The same element with its text replaced.
    pub fn with_item(&self, item: String) -> (r: Element)
        ensures
            r@ == (ElementView { item: item@, ..self@ }),
    {
        Element { item, ..self.duplicate() }
    }

    pub fn with_margin(&self, margin: Margin) -> (r: Element)
        ensures
            r@ == (ElementView { margin, ..self@ }),
    {
        Element { margin, ..self.duplicate() }
    }

    pub fn with_alignment(&self, alignment: Alignment) -> (r: Element)
        ensures
            r@ == (ElementView { alignment, ..self@ }),
    {
        Element { alignment, ..self.duplicate() }
    }

    pub fn with_width(&self, width: Width) -> (r: Element)
        ensures
            r@ == (ElementView { width, ..self@ }),
    {
        Element { width, ..self.duplicate() }
    }

    pub fn with_text_width(&self, text_width: Width) -> (r: Element)
        ensures
            r@ == (ElementView { text_width, ..self@ }),
    {
        Element { text_width, ..self.duplicate() }
    }

    /// The same element with a hyperlink target attached.
    pub fn with_url(&self, url: String) -> (r: Element)
        ensures
            r@ == (ElementView { url: Some(url@), ..self@ }),
    {
        Element { url: Some(url), ..self.duplicate() }
    }
}

impl Default for Element {
    fn default() -> (e: Element)
        ensures
            e@.item == Seq::<char>::empty(),
            e@.margin == (Margin { top: 0u32, bottom: 0u32, left: 0u32, right: 0u32 }),
            e@.alignment == Alignment::Left,
            e@.width == Width::Fill,
            e@.text_width == Width::Fill,
            e@.font.name == "Arial"@,
            e@.font.size == 12,
            e@.font.weight == crate::font::FontWeight::Medium,
            e@.font.style == crate::font::FontStyle::Normal,
            e@.font.source == crate::font::FontSource::System,
            e@.is_fill == false,
            e@.url is None,
    {
        Element {
            item: String::new(),
            margin: Margin::zero(),
            alignment: Alignment::Left,
            width: Width::Fill,
            text_width: Width::Fill,
            font: FontRef::default(),
            is_fill: false,
            url: None,
        }
    }
}

impl ElementView {
    /// What scaling does to an element: its declared width is resolved
    /// against the reference width; the measured text width is untouched.
    pub open spec fn spec_scale(self, reference: u32) -> ElementView {
        ElementView { width: self.width.spec_scale(reference), ..self }
    }

    /// What bounding does to an element.  A fixed width is clamped to the
    /// incoming bound; a `Fill` width is assigned the bound and the element
    /// is marked as filled, so later stages know the width was assigned, not
    /// authored.
    pub open spec fn spec_bound(self, bound: u32) -> ElementView {
        if !(self.width is Fill) {
            ElementView {
                width: Width::Fixed(
                    if self.width.spec_units() <= bound {
                        self.width.spec_units()
                    } else {
                        bound
                    },
                ),
                ..self
            }
        } else {
            ElementView { width: Width::Fixed(bound), is_fill: true, ..self }
        }
    }

    /// What font-filling does to an element: the measured width of its text
    /// is attached, and a fill-marked element's width shrinks to the measured
    /// width when that is smaller, so single words do not consume the full
    /// bound.
    pub open spec fn spec_fill_fonts(self, d: FontDict) -> ElementView {
        let m = measured_width(d, self.font, self.item);
        if self.is_fill {
            ElementView {
                width: Width::Fixed(
                    if self.width.spec_units() <= m {
                        self.width.spec_units()
                    } else {
                        m
                    },
                ),
                text_width: Width::Fixed(m),
                ..self
            }
        } else {
            ElementView { text_width: Width::Fixed(m), ..self }
        }
    }
}

impl Element {
    /// Resolve a percentage width against the document's reference width.
    pub fn scale_width(&self, reference: u32) -> (r: Element)
        requires
            self@.width matches Width::Percentage(p) ==> p <= 100,
        ensures
            r@ == self@.spec_scale(reference),
    {
        Element { width: self.width.scale(reference), ..self.duplicate() }
    }

    /// Clamp the element's width to the incoming bound; an unresolved `Fill`
    /// width is assigned the bound and the element is marked as filled.
    pub fn bound_width(&self, bound: u32) -> (r: Element)
        ensures
            r@ == self@.spec_bound(bound),
    {
        if self.width.is_fixed() {
            let w = self.width.get_fixed_unchecked();
            Element {
                width: Width::Fixed(if w <= bound {
                    w
                } else {
                    bound
                }),
                ..self.duplicate()
            }
        } else {
            Element { width: Width::Fixed(bound), is_fill: true, ..self.duplicate() }
        }
    }

    /// Attach the measured width of the element's text, shrinking a
    /// fill-marked width to the measured width when that is smaller.
    pub fn fill_fonts(&self, font_dict: &FontDict) -> (r: Element)
        requires
            font_available(*font_dict, self@.font),
            self@.is_fill ==> !(self@.width is Fill),
        ensures
            r@ == self@.spec_fill_fonts(*font_dict),
    {
        let m = font_dict.width_of(&self.font, self.item.as_str());
        if self.is_fill {
            let w = self.width.get_fixed_unchecked();
            Element {
                width: Width::Fixed(if w <= m {
                    w
                } else {
                    m
                }),
                text_width: Width::Fixed(m),
                ..self.duplicate()
            }
        } else {
            Element { text_width: Width::Fixed(m), ..self.duplicate() }
        }
    }
}

/// The characters the line breaker treats as word separators: the engine
/// models whitespace as this fixed set of separator characters.
pub open spec fn spec_is_space(c: char) -> bool {
    c == ' ' || c == '\t' || c == '\n' || c == '\r'
}

/// Whether `c` separates words.
pub fn is_space(c: char) -> (r: bool)
    ensures
        r == spec_is_space(c),
{
    c == ' ' || c == '\t' || c == '\n' || c == '\r'
}

/// The longest prefix of `s` that holds no separator.
pub open spec fn spec_take_word(s: Seq<char>) -> Seq<char>
    decreases s.len(),
{
    if s.len() == 0 || spec_is_space(s.first()) {
        Seq::empty()
    } else {
        seq![s.first()] + spec_take_word(s.drop_first())
    }
}

/// A taken word is a prefix, and it is non-empty exactly when the text
/// starts with a non-separator.
pub proof fn lemma_take_word_len(s: Seq<char>)
    ensures
        spec_take_word(s).len() <= s.len(),
        s.len() > 0 && !spec_is_space(s.first()) ==> spec_take_word(s).len() >= 1,
    decreases s.len(),
{
    if s.len() > 0 && !spec_is_space(s.first()) {
        lemma_take_word_len(s.drop_first());
    }
}

/// The separator-delimited words of `s`, in order, each non-empty.
pub open spec fn spec_words(s: Seq<char>) -> Seq<Seq<char>>
    decreases s.len(),
{
    if s.len() == 0 {
        Seq::empty()
    } else if spec_is_space(s.first()) {
        spec_words(s.drop_first())
    } else {
        let w = spec_take_word(s);
        proof {
            lemma_take_word_len(s);
        }
        seq![w] + spec_words(s.skip(w.len() as int))
    }
}

/// When the first `k` characters of `s` are non-separators and the text ends
/// or a separator follows, the taken word is exactly that prefix.
pub proof fn lemma_take_word_scan(s: Seq<char>, k: int)
    requires
        0 <= k <= s.len(),
        forall|j: int| 0 <= j < k ==> !spec_is_space(#[trigger] s[j]),
        k == s.len() || spec_is_space(s[k]),
    ensures
        spec_take_word(s) == s.subrange(0, k),
    decreases k,
{
    if k == 0 {
        assert(spec_take_word(s) =~= s.subrange(0, 0));
    } else {
        assert(!spec_is_space(s[0]));
        lemma_take_word_scan(s.drop_first(), k - 1);
        assert(s.drop_first().subrange(0, k - 1) =~= s.subrange(1, k));
        assert(seq![s.first()] + s.subrange(1, k) =~= s.subrange(0, k));
    }
}

/// The views of a sequence of strings.
pub open spec fn str_views(q: Seq<String>) -> Seq<Seq<char>> {
    Seq::new(
        q.len(),
        |i: int|
            if 0 <= i < q.len() {
                q[i]@
            } else {
                Seq::empty()
            },
    )
}

/// The views of a sequence of elements.
pub open spec fn element_views(q: Seq<Element>) -> Seq<ElementView> {
    Seq::new(
        q.len(),
        |i: int|
            if 0 <= i < q.len() {
                q[i]@
            } else {
                q[0]@
            },
    )
}

/// Split `s` into its separator-delimited words.
pub fn split_words(s: &str) -> (r: Vec<String>)
    ensures
        str_views(r@) == spec_words(s@),
{
    let n = s.unicode_len();
    let mut out: Vec<String> = Vec::new();
    let mut pos: usize = 0;
    proof {
        assert(s@.skip(0) =~= s@);
        assert(str_views(out@) + spec_words(s@) =~= spec_words(s@));
    }
    while pos < n
        invariant
            n == s@.len(),
            pos <= n,
            spec_words(s@) == str_views(out@) + spec_words(s@.skip(pos as int)),
        decreases n - pos,
    {
        let c = s.get_char(pos);
        if is_space(c) {
            proof {
                let t = s@.skip(pos as int);
                assert(t.drop_first() =~= s@.skip(pos as int + 1));
            }
            pos = pos + 1;
        } else {
            let start = pos;
            let mut end = pos + 1;
            while end < n && !is_space(s.get_char(end))
                invariant
                    n == s@.len(),
                    pos < n,
                    start == pos,
                    pos < end <= n,
                    forall|j: int| pos <= j < end ==> !spec_is_space(#[trigger] s@[j]),
                decreases n - end,
            {
                end = end + 1;
            }
            let word = s.substring_char(start, end).to_owned();
            proof {
                let t = s@.skip(pos as int);
                let k = end - pos;
                assert(forall|j: int| 0 <= j < k ==> t[j] == s@[pos + j]);
                lemma_take_word_scan(t, k);
                assert(t.subrange(0, k) =~= s@.subrange(pos as int, end as int));
                assert(t.skip(k) =~= s@.skip(end as int));
                lemma_take_word_len(t);
                assert(str_views(out@.push(word)) =~= str_views(out@) + seq![word@]);
                assert(str_views(out@) + (seq![word@] + spec_words(s@.skip(end as int)))
                    =~= (str_views(out@) + seq![word@]) + spec_words(s@.skip(end as int)));
            }
            out.push(word);
            pos = end;
        }
    }
    proof {
        assert(s@.skip(n as int) =~= Seq::<char>::empty());
        assert(spec_words(s@) =~= str_views(out@));
    }
    out
}

/// The lines the greedy breaker emits from `words`, with `cur` the line
/// accumulated so far: a word is appended to the current line when the
/// candidate still measures within `limit`, else the current line is emitted
/// and the word starts a new one.
pub open spec fn spec_greedy(
    d: FontDict,
    f: FontView,
    limit: u32,
    words: Seq<Seq<char>>,
    cur: Seq<char>,
) -> Seq<Seq<char>>
    decreases words.len(),
{
    if words.len() == 0 {
        seq![cur]
    } else {
        let cand = cur + seq![' '] + words.first();
        if measured_width(d, f, cand) <= limit {
            spec_greedy(d, f, limit, words.drop_first(), cand)
        } else {
            seq![cur] + spec_greedy(d, f, limit, words.drop_first(), words.first())
        }
    }
}

/// The line texts the greedy breaker emits for a word sequence: none when
/// there are no words, else the first word seeds the first line.
pub open spec fn spec_line_texts(
    d: FontDict,
    f: FontView,
    limit: u32,
    words: Seq<Seq<char>>,
) -> Seq<Seq<char>> {
    if words.len() == 0 {
        Seq::empty()
    } else {
        spec_greedy(d, f, limit, words.drop_first(), words.first())
    }
}

/// One emitted line: the element with its text replaced by the line and its
/// measured width re-attached.
pub open spec fn spec_line_element(e: ElementView, d: FontDict, t: Seq<char>) -> ElementView {
    ElementView { item: t, text_width: Width::Fixed(measured_width(d, e.font, t)), ..e }
}

impl ElementView {
    /// What line-breaking does to an element: nothing when the measured text
    /// already fits its width, else the text is wrapped greedily at word
    /// boundaries and each line becomes an element of its own.
    pub open spec fn spec_break_lines(self, d: FontDict) -> Seq<ElementView>
        recommends
            !(self.width is Fill),
            !(self.text_width is Fill),
    {
        if self.text_width.spec_units() <= self.width.spec_units() {
            seq![self]
        } else {
            let lines = spec_line_texts(d, self.font, self.width.spec_units(), spec_words(self.item));
            Seq::new(
                lines.len(),
                |i: int|
                    if 0 <= i < lines.len() {
                        spec_line_element(self, d, lines[i])
                    } else {
                        self
                    },
            )
        }
    }
}

impl Element {
    /// Wrap over-wide text greedily at word boundaries; each resulting line
    /// becomes an element of its own, with its measured width attached.
    pub fn break_lines(&self, font_dict: &FontDict) -> (r: Vec<Element>)
        requires
            font_available(*font_dict, self@.font),
            !(self@.width is Fill),
            !(self@.text_width is Fill),
        ensures
            element_views(r@) == self@.spec_break_lines(*font_dict),
    {
        let ghost d = *font_dict;
        let ghost me = self@;
        if self.text_width.get_fixed_unchecked() <= self.width.get_fixed_unchecked() {
            let mut one: Vec<Element> = Vec::new();
            one.push(self.duplicate());
            proof {
                assert(element_views(one@) =~= seq![me]);
            }
            return one;
        }
        let limit = self.width.get_fixed_unchecked();
        let words = split_words(self.item.as_str());
        let ghost wviews = spec_words(me.item);
        let mut lines: Vec<Element> = Vec::new();
        if words.len() == 0 {
            proof {
                assert(wviews.len() == 0);
                assert(element_views(lines@) =~= me.spec_break_lines(d));
            }
            return lines;
        }
        let mut cur: String = words[0].clone();
        let ghost mut texts: Seq<Seq<char>> = Seq::empty();
        let mut idx: usize = 1;
        proof {
            assert(wviews[0] == words[0]@);
            assert(wviews.skip(1) =~= wviews.drop_first());
        }
        while idx < words.len()
            invariant
                1 <= idx <= words@.len(),
                d == *font_dict,
                str_views(words@) == wviews,
                wviews.len() == words@.len(),
                font_available(d, me.font),
                limit == me.width.spec_units(),
                lines@.len() == texts.len(),
                element_views(lines@) == Seq::new(
                    texts.len(),
                    |i: int|
                        if 0 <= i < texts.len() {
                            spec_line_element(me, d, texts[i])
                        } else {
                            me
                        },
                ),
                spec_line_texts(d, me.font, limit, wviews) == texts + spec_greedy(
                    d,
                    me.font,
                    limit,
                    wviews.skip(idx as int),
                    cur@,
                ),
                self@ == me,
            decreases words@.len() - idx,
        {
            let ghost rem = wviews.skip(idx as int);
            let mut cand: String = cur.clone();
            cand.append(" ");
            cand.append(words[idx].as_str());
            proof {
                reveal_strlit(" ");
                assert(" "@ =~= seq![' ']);
                assert(wviews[idx as int] == words@[idx as int]@);
                assert(cand@ == cur@ + seq![' '] + wviews[idx as int]);
                assert(rem.first() == wviews[idx as int]);
                assert(rem.drop_first() =~= wviews.skip(idx as int + 1));
            }
            let cw = font_dict.width_of(&self.font, cand.as_str());
            if cw <= limit {
                proof {
                    assert(spec_greedy(d, me.font, limit, rem, cur@) == spec_greedy(
                        d,
                        me.font,
                        limit,
                        rem.drop_first(),
                        cand@,
                    ));
                }
                cur = cand;
            } else {
                let mw = font_dict.width_of(&self.font, cur.as_str());
                let ghost curview = cur@;
                let line = Element { item: cur, text_width: Width::Fixed(mw), ..self.duplicate() };
                proof {
                    assert(line@ == spec_line_element(me, d, curview));
                    assert(spec_greedy(d, me.font, limit, rem, curview) == seq![curview]
                        + spec_greedy(d, me.font, limit, rem.drop_first(), rem.first()));
                    assert(element_views(lines@.push(line)) =~= element_views(lines@)
                        + seq![line@]);
                    let nt = texts.push(curview);
                    assert(element_views(lines@) + seq![line@] =~= Seq::new(
                        nt.len(),
                        |i: int|
                            if 0 <= i < nt.len() {
                                spec_line_element(me, d, nt[i])
                            } else {
                                me
                            },
                    ));
                    assert(texts + (seq![curview] + spec_greedy(
                        d,
                        me.font,
                        limit,
                        rem.drop_first(),
                        rem.first(),
                    )) =~= nt + spec_greedy(d, me.font, limit, rem.drop_first(), rem.first()));
                }
                lines.push(line);
                proof {
                    texts = texts.push(curview);
                }
                cur = words[idx].clone();
            }
            idx = idx + 1;
        }
        let mw = font_dict.width_of(&self.font, cur.as_str());
        let line = Element { item: cur, text_width: Width::Fixed(mw), ..self.duplicate() };
        proof {
            assert(wviews.skip(idx as int) =~= Seq::<Seq<char>>::empty());
            assert(line@ == spec_line_element(me, d, line@.item));
            assert(element_views(lines@.push(line)) =~= element_views(lines@) + seq![line@]);
            let nt = texts.push(line@.item);
            assert(element_views(lines@) + seq![line@] =~= Seq::new(
                nt.len(),
                |i: int|
                    if 0 <= i < nt.len() {
                        spec_line_element(me, d, nt[i])
                    } else {
                        me
                    },
            ));
            assert((texts + seq![line@.item]) =~= nt);
            assert(spec_line_texts(d, me.font, limit, wviews) == nt);
        }
        lines.push(line);
        proof {
            let final_texts = spec_line_texts(d, me.font, limit, wviews);
            assert(element_views(lines@) =~= me.spec_break_lines(d));
        }
        lines
    }
}

/// Every line the greedy breaker emits measures within the limit, as long as
/// the seed line does and every word does on its own.
pub proof fn lemma_greedy_fit(
    d: FontDict,
    f: FontView,
    limit: u32,
    words: Seq<Seq<char>>,
    cur: Seq<char>,
)
    requires
        measured_width(d, f, cur) <= limit,
        forall|i: int| 0 <= i < words.len() ==> measured_width(d, f, #[trigger] words[i]) <= limit,
    ensures
        forall|i: int|
            0 <= i < spec_greedy(d, f, limit, words, cur).len() ==> measured_width(
                d,
                f,
                #[trigger] spec_greedy(d, f, limit, words, cur)[i],
            ) <= limit,
    decreases words.len(),
{
    if words.len() > 0 {
        let cand = cur + seq![' '] + words.first();
        assert(words.first() == words[0]);
        assert(forall|i: int|
            0 <= i < words.drop_first().len() ==> #[trigger] words.drop_first()[i] == words[i + 1]);
        if measured_width(d, f, cand) <= limit {
            lemma_greedy_fit(d, f, limit, words.drop_first(), cand);
            assert(spec_greedy(d, f, limit, words, cur) == spec_greedy(
                d,
                f,
                limit,
                words.drop_first(),
                cand,
            ));
        } else {
            lemma_greedy_fit(d, f, limit, words.drop_first(), words.first());
            let rest = spec_greedy(d, f, limit, words.drop_first(), words.first());
            assert(spec_greedy(d, f, limit, words, cur) == seq![cur] + rest);
            assert forall|i: int| 0 <= i < (seq![cur] + rest).len() implies measured_width(
                d,
                f,
                (seq![cur] + rest)[i],
            ) <= limit by {
                if i > 0 {
                    assert((seq![cur] + rest)[i] == rest[i - 1]);
                }
            }
        }
    }
}

/// After line-breaking, each resulting line's measured width is within the
/// element's resolved width, as long as every single word of the text is:
/// a word the breaker cannot split may exceed any width on its own.
pub proof fn lemma_break_lines_fit(e: ElementView, d: FontDict)
    requires
        !(e.width is Fill),
        e.text_width == Width::Fixed(measured_width(d, e.font, e.item)),
        forall|i: int|
            0 <= i < spec_words(e.item).len() ==> measured_width(
                d,
                e.font,
                #[trigger] spec_words(e.item)[i],
            ) <= e.width.spec_units(),
    ensures
        forall|i: int|
            0 <= i < e.spec_break_lines(d).len() ==> {
                let line = #[trigger] e.spec_break_lines(d)[i];
                line.text_width == Width::Fixed(measured_width(d, e.font, line.item))
                    && measured_width(d, e.font, line.item) <= e.width.spec_units()
            },
{
    let lines = e.spec_break_lines(d);
    if e.text_width.spec_units() <= e.width.spec_units() {
        assert(lines =~= seq![e]);
    } else {
        let words = spec_words(e.item);
        if words.len() > 0 {
            assert(words[0] == words.first());
            lemma_greedy_fit(d, e.font, e.width.spec_units(), words.drop_first(), words.first());
            assert(forall|i: int|
                0 <= i < words.drop_first().len() ==> #[trigger] words.drop_first()[i] == words[i
                    + 1]);
        }
    }
}

} // verus!
