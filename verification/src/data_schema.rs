//! Data schemas: the named, typed field lists a section's records follow.

use vstd::prelude::*;
use vstd::string::*;

use crate::element::{is_space, spec_is_space};
use crate::layout_schema::spec_find_schema;

verus! {

/// A field's type expression: a plain named type, a list of a type, or a
/// union of alternatives.
#[derive(Debug)]
pub enum DocumentDataType {
    Type(String),
    List(Box<DocumentDataType>),
    Types(Vec<DocumentDataType>),
}

/// The mathematical model of a type expression.
pub enum DataTypeView {
    Type(Seq<char>),
    List(Box<DataTypeView>),
    Types(Seq<DataTypeView>),
}

/// The model of a type expression.
pub open spec fn data_type_view(t: DocumentDataType) -> DataTypeView
    decreases t,
{
    match t {
        DocumentDataType::Type(s) => DataTypeView::Type(s@),
        DocumentDataType::List(b) => DataTypeView::List(Box::new(data_type_view(*b))),
        DocumentDataType::Types(ts) => DataTypeView::Types(
            Seq::new(
                ts@.len(),
                |i: int|
                    if 0 <= i < ts@.len() {
                        data_type_view(ts@[i])
                    } else {
                        DataTypeView::Type(Seq::empty())
                    },
            ),
        ),
    }
}

impl View for DocumentDataType {
    type V = DataTypeView;

    open spec fn view(&self) -> DataTypeView {
        data_type_view(*self)
    }
}

/// The text a type expression renders as: the type name, `List` followed by
/// the inner type's text, or the alternatives joined by `" | "`.
pub open spec fn spec_type_text(t: DataTypeView) -> Seq<char>
    decreases t,
{
    match t {
        DataTypeView::Type(s) => s,
        DataTypeView::List(b) => "List"@ + spec_type_text(*b),
        DataTypeView::Types(ts) => spec_type_texts(ts),
    }
}

/// The alternatives' texts joined by `" | "`.
pub open spec fn spec_type_texts(ts: Seq<DataTypeView>) -> Seq<char>
    decreases ts,
{
    if ts.len() == 0 {
        Seq::empty()
    } else if ts.len() == 1 {
        spec_type_text(ts.first())
    } else {
        spec_type_text(ts.first()) + " | "@ + spec_type_texts(ts.drop_first())
    }
}

impl DocumentDataType {
    /// The text this type expression renders as.
    pub fn to_text(&self) -> (r: String)
        ensures
            r@ == spec_type_text(self@),
        decreases self,
    {
        match self {
            DocumentDataType::Type(s) => s.clone(),
            DocumentDataType::List(b) => {
                proof {
                    assert(decreases_to!(self => b));
                }
                let mut out = String::from_str("List");
                let inner = (&**b).to_text();
                out.append(inner.as_str());
                proof {
                    assert(self@ matches DataTypeView::List(ib) && *ib == (**b)@);
                }
                out
            },
            DocumentDataType::Types(ts) => {
                let ghost tv = self@->Types_0;
                let mut out = String::new();
                let mut i: usize = 0;
                proof {
                    assert(tv.len() == ts@.len());
                    assert(tv.skip(0) =~= tv);
                    assert(out@ + spec_type_texts(tv) =~= spec_type_texts(tv));
                }
                #[verifier::loop_isolation(false)]
                while i < ts.len()
                    invariant
                        i <= ts@.len(),
                        spec_type_texts(tv) == out@ + spec_type_texts(tv.skip(i as int)),
                    decreases ts@.len() - i,
                {
                    proof {
                        assert(decreases_to!(ts => ts@[i as int]));
                        assert(tv[i as int] == data_type_view(ts@[i as int]));
                        assert(tv.skip(i as int).first() == tv[i as int]);
                        assert(tv.skip(i as int).drop_first() =~= tv.skip(i as int + 1));
                    }
                    let piece = ts[i].to_text();
                    out.append(piece.as_str());
                    if i + 1 < ts.len() {
                        out.append(" | ");
                    }
                    proof {
                        reveal_strlit(" | ");
                        if i + 1 < ts.len() {
                            assert(tv.skip(i as int).len() >= 2);
                        } else {
                            assert(tv.skip(i as int).len() == 1);
                            assert(tv.skip(i as int + 1) =~= Seq::<DataTypeView>::empty());
                        }
                    }
                    i = i + 1;
                }
                proof {
                    if ts@.len() == 0 {
                        assert(spec_type_texts(tv) =~= out@);
                    } else {
                        assert(tv.skip(i as int) =~= Seq::<DataTypeView>::empty());
                        assert(out@ + Seq::<char>::empty() =~= out@);
                    }
                }
                out
            },
        }
    }
}

/// Whether the text holds a union separator.
pub open spec fn spec_has_pipe(s: Seq<char>) -> bool {
    exists|i: int| 0 <= i < s.len() && s[i] == '|'
}

/// Whether the text starts with the list marker `List`.
pub open spec fn spec_is_list_form(s: Seq<char>) -> bool {
    s.len() >= 4 && s.subrange(0, 4) == "List"@
}

/// The index of the first union separator in the text, or the text's
/// length when it holds none.
pub open spec fn spec_first_pipe(s: Seq<char>) -> int
    decreases s.len(),
{
    if s.len() == 0 {
        0
    } else if s.first() == '|' {
        0
    } else {
        1 + spec_first_pipe(s.drop_first())
    }
}

/// The first-separator index lies in range, nothing before it is a
/// separator, and it points at one unless the text holds none.
pub proof fn lemma_first_pipe_range(s: Seq<char>)
    ensures
        0 <= spec_first_pipe(s) <= s.len(),
        forall|i: int| 0 <= i < spec_first_pipe(s) ==> s[i] != '|',
        spec_first_pipe(s) < s.len() ==> s[spec_first_pipe(s)] == '|',
    decreases s.len(),
{
    if s.len() > 0 && s.first() != '|' {
        lemma_first_pipe_range(s.drop_first());
        assert forall|i: int| 0 <= i < spec_first_pipe(s) implies s[i] != '|' by {
            if i > 0 {
                assert(s.drop_first()[i - 1] == s[i]);
            }
        }
        if spec_first_pipe(s) < s.len() {
            assert(s.drop_first()[spec_first_pipe(s.drop_first())] == s[spec_first_pipe(s)]);
        }
    }
}

/// When the first `j` characters are no separators and the text ends or a
/// separator follows, the first-separator index is exactly `j`.
pub proof fn lemma_first_pipe_at(s: Seq<char>, j: int)
    requires
        0 <= j <= s.len(),
        forall|i: int| 0 <= i < j ==> s[i] != '|',
        j == s.len() || s[j] == '|',
    ensures
        spec_first_pipe(s) == j,
    decreases j,
{
    if j == 0 {
    } else {
        assert(s[0] != '|');
        assert forall|i: int| 0 <= i < j - 1 implies s.drop_first()[i] != '|' by {
            assert(s.drop_first()[i] == s[i + 1]);
        }
        if j < s.len() {
            assert(s.drop_first()[j - 1] == s[j]);
        }
        lemma_first_pipe_at(s.drop_first(), j - 1);
    }
}

/// The text with its leading separators removed.
pub open spec fn spec_trim_front(s: Seq<char>) -> Seq<char>
    decreases s.len(),
{
    if s.len() > 0 && spec_is_space(s.first()) {
        spec_trim_front(s.drop_first())
    } else {
        s
    }
}

/// The text with its trailing separators removed.
pub open spec fn spec_trim_back(s: Seq<char>) -> Seq<char>
    decreases s.len(),
{
    if s.len() > 0 && spec_is_space(s.last()) {
        spec_trim_back(s.drop_last())
    } else {
        s
    }
}

/// The text with its surrounding separators removed.
pub open spec fn spec_trim(s: Seq<char>) -> Seq<char> {
    spec_trim_back(spec_trim_front(s))
}

/// Trimming never lengthens a text.
pub proof fn lemma_trim_len(s: Seq<char>)
    ensures
        spec_trim_front(s).len() <= s.len(),
        spec_trim_back(s).len() <= s.len(),
        spec_trim(s).len() <= s.len(),
{
    lemma_trim_len_front_of(s);
    lemma_trim_len_back_of(s);
    lemma_trim_len_back_of(spec_trim_front(s));
}

/// Helper: the back trim of any text never lengthens it.
proof fn lemma_trim_len_back_of(s: Seq<char>)
    ensures
        spec_trim_back(s).len() <= s.len(),
    decreases s.len(),
{
    if s.len() > 0 && spec_is_space(s.last()) {
        lemma_trim_len_back_of(s.drop_last());
    }
}

/// Helper: the front trim of any text never lengthens it.
proof fn lemma_trim_len_front_of(s: Seq<char>)
    ensures
        spec_trim_front(s).len() <= s.len(),
    decreases s.len(),
{
    if s.len() > 0 && spec_is_space(s.first()) {
        lemma_trim_len_front_of(s.drop_first());
    }
}

/// When the first `a` characters are separators and the text ends or a
/// non-separator follows, the front trim is the suffix from `a`.
proof fn lemma_trim_front_at(s: Seq<char>, a: int)
    requires
        0 <= a <= s.len(),
        forall|i: int| 0 <= i < a ==> spec_is_space(#[trigger] s[i]),
        a == s.len() || !spec_is_space(s[a]),
    ensures
        spec_trim_front(s) == s.skip(a),
    decreases a,
{
    if a == 0 {
        assert(spec_trim_front(s) =~= s.skip(0));
    } else {
        assert(spec_is_space(s[0]));
        assert forall|i: int| 0 <= i < a - 1 implies spec_is_space(#[trigger] s.drop_first()[i]) by {
            assert(s.drop_first()[i] == s[i + 1]);
        }
        if a < s.len() {
            assert(s.drop_first()[a - 1] == s[a]);
        }
        lemma_trim_front_at(s.drop_first(), a - 1);
        assert(s.drop_first().skip(a - 1) =~= s.skip(a));
    }
}

/// When everything from `b` on is a separator and `b` is the start or a
/// non-separator precedes it, the back trim is the prefix up to `b`.
proof fn lemma_trim_back_at(s: Seq<char>, b: int)
    requires
        0 <= b <= s.len(),
        forall|i: int| b <= i < s.len() ==> spec_is_space(#[trigger] s[i]),
        b == 0 || !spec_is_space(s[b - 1]),
    ensures
        spec_trim_back(s) == s.take(b),
    decreases s.len(),
{
    if b == s.len() {
        if s.len() == 0 {
            assert(spec_trim_back(s) =~= s.take(b));
        } else {
            assert(!spec_is_space(s.last()));
            assert(spec_trim_back(s) =~= s.take(b));
        }
    } else {
        assert(spec_is_space(s.last()));
        assert forall|i: int| b <= i < s.drop_last().len() implies spec_is_space(
            #[trigger] s.drop_last()[i],
        ) by {
            assert(s.drop_last()[i] == s[i]);
        }
        if b > 0 {
            assert(s.drop_last()[b - 1] == s[b - 1]);
        }
        lemma_trim_back_at(s.drop_last(), b);
        assert(s.drop_last().take(b) =~= s.take(b));
    }
}

/// A copy of a text with surrounding separators removed.
fn trim_text(s: &str) -> (r: String)
    ensures
        r@ == spec_trim(s@),
{
    let n = s.unicode_len();
    let mut a: usize = 0;
    while a < n && is_space(s.get_char(a))
        invariant
            n == s@.len(),
            a <= n,
            forall|i: int| 0 <= i < a ==> spec_is_space(#[trigger] s@[i]),
        decreases n - a,
    {
        a = a + 1;
    }
    let mut b: usize = n;
    while b > a && is_space(s.get_char(b - 1))
        invariant
            n == s@.len(),
            a <= b <= n,
            forall|i: int| b <= i < n ==> spec_is_space(#[trigger] s@[i]),
        decreases b,
    {
        b = b - 1;
    }
    let r = s.substring_char(a, b).to_owned();
    proof {
        lemma_trim_front_at(s@, a as int);
        let t = s@.skip(a as int);
        assert(forall|i: int| 0 <= i < t.len() ==> #[trigger] t[i] == s@[a + i]);
        assert forall|i: int| b - a <= i < t.len() implies spec_is_space(#[trigger] t[i]) by {
            assert(t[i] == s@[a + i]);
        }
        if b > a {
            assert(t[b - a - 1] == s@[b - 1]);
        }
        lemma_trim_back_at(t, b - a);
        assert(t.take(b - a) =~= s@.subrange(a as int, b as int));
        assert(r@ == s@.subrange(a as int, b as int));
    }
    r
}

/// What parsing a text without union separators yields: a `List(...)` form
/// holds an inner expression (malformed when too short to), anything else
/// is a plain type name taken verbatim.
pub open spec fn spec_parse_atom(s: Seq<char>) -> Option<DataTypeView>
    decreases s.len(), 0int,
{
    if spec_is_list_form(s) {
        if s.len() < 6 {
            None
        } else {
            match spec_parse(s.subrange(5, s.len() - 1)) {
                Some(t) => Some(DataTypeView::List(Box::new(t))),
                None => None,
            }
        }
    } else {
        Some(DataTypeView::Type(s))
    }
}

/// What parsing the union pieces of a text yields: the text is split at
/// every separator, each piece trimmed and parsed as an atom, in order;
/// `None` when any piece is malformed.
pub open spec fn spec_parse_pieces(s: Seq<char>) -> Option<Seq<DataTypeView>>
    decreases s.len(), 1int,
{
    let cut = spec_first_pipe(s);
    let head = spec_trim(s.take(cut));
    proof {
        lemma_first_pipe_range(s);
        lemma_trim_len(s.take(cut));
    }
    if cut >= s.len() {
        match spec_parse_atom(head) {
            Some(t) => Some(seq![t]),
            None => None,
        }
    } else {
        match (spec_parse_atom(head), spec_parse_pieces(s.skip(cut + 1))) {
            (Some(t), Some(ts)) => Some(seq![t] + ts),
            _ => None,
        }
    }
}

/// What parsing a type expression yields: a union of trimmed alternatives
/// when the text holds a separator, else an atom.
pub open spec fn spec_parse(s: Seq<char>) -> Option<DataTypeView>
    decreases s.len(), 2int,
{
    if spec_has_pipe(s) {
        match spec_parse_pieces(s) {
            Some(ts) => Some(DataTypeView::Types(ts)),
            None => None,
        }
    } else {
        spec_parse_atom(s)
    }
}

/// Prefixing already-parsed alternatives onto the outcome of the rest.
pub open spec fn spec_prepend(
    xs: Seq<DataTypeView>,
    o: Option<Seq<DataTypeView>>,
) -> Option<Seq<DataTypeView>> {
    match o {
        Some(ys) => Some(xs + ys),
        None => None,
    }
}

/// The models of a sequence of type expressions.
pub open spec fn data_type_views(q: Seq<DocumentDataType>) -> Seq<DataTypeView> {
    Seq::new(
        q.len(),
        |i: int|
            if 0 <= i < q.len() {
                data_type_view(q[i])
            } else {
                DataTypeView::Type(Seq::empty())
            },
    )
}

/// Trimming keeps a text free of union separators.
proof fn lemma_trim_no_pipe(s: Seq<char>)
    requires
        !spec_has_pipe(s),
    ensures
        !spec_has_pipe(spec_trim(s)),
{
    lemma_trim_front_no_pipe(s);
    lemma_trim_back_no_pipe(spec_trim_front(s));
}

/// Front-trimming keeps a text free of union separators.
proof fn lemma_trim_front_no_pipe(s: Seq<char>)
    requires
        !spec_has_pipe(s),
    ensures
        !spec_has_pipe(spec_trim_front(s)),
    decreases s.len(),
{
    if s.len() > 0 && spec_is_space(s.first()) {
        assert(!spec_has_pipe(s.drop_first())) by {
            assert forall|i: int| 0 <= i < s.drop_first().len() implies #[trigger] s.drop_first()[i]
                != '|' by {
                assert(s.drop_first()[i] == s[i + 1]);
            }
        }
        lemma_trim_front_no_pipe(s.drop_first());
    }
}

/// Back-trimming keeps a text free of union separators.
proof fn lemma_trim_back_no_pipe(s: Seq<char>)
    requires
        !spec_has_pipe(s),
    ensures
        !spec_has_pipe(spec_trim_back(s)),
    decreases s.len(),
{
    if s.len() > 0 && spec_is_space(s.last()) {
        assert(!spec_has_pipe(s.drop_last())) by {
            assert forall|i: int| 0 <= i < s.drop_last().len() implies #[trigger] s.drop_last()[i]
                != '|' by {
                assert(s.drop_last()[i] == s[i]);
            }
        }
        lemma_trim_back_no_pipe(s.drop_last());
    }
}

impl DocumentDataType {
    /// Parse a type expression: the text is split at every `|`, each piece
    /// trimmed and parsed; a piece of the form `List(...)` holds an inner
    /// expression, and any other piece is a plain type name taken verbatim.
    /// A `List` form too short to hold an inner expression is malformed.
    pub fn from_str(s: &str) -> (r: Result<DocumentDataType, String>)
        ensures
            r is Ok <==> spec_parse(s@) is Some,
            r matches Ok(v) ==> spec_parse(s@) == Some(v@),
        decreases s@.len(),
    {
        let n = s.unicode_len();
        let mut has_pipe = false;
        let mut i: usize = 0;
        while i < n
            invariant
                n == s@.len(),
                i <= n,
                has_pipe <==> exists|j: int| 0 <= j < i && s@[j] == '|',
            decreases n - i,
        {
            if s.get_char(i) == '|' {
                has_pipe = true;
            }
            i = i + 1;
        }
        proof {
            assert(has_pipe == spec_has_pipe(s@));
        }
        if has_pipe {
            let mut parts: Vec<DocumentDataType> = Vec::new();
            let mut start: usize = 0;
            let mut k: usize = 0;
            proof {
                assert(s@.skip(0) =~= s@);
                assert(data_type_views(parts@) =~= Seq::<DataTypeView>::empty());
                if spec_parse_pieces(s@) is Some {
                    assert(Seq::<DataTypeView>::empty() + spec_parse_pieces(s@)->Some_0
                        =~= spec_parse_pieces(s@)->Some_0);
                }
            }
            while k < n
                invariant
                    n == s@.len(),
                    start <= k <= n,
                    spec_has_pipe(s@),
                    forall|j: int| start <= j < k ==> s@[j] != '|',
                    spec_prepend(data_type_views(parts@), spec_parse_pieces(s@.skip(start as int)))
                        == spec_parse_pieces(s@),
                decreases n - k,
            {
                if s.get_char(k) == '|' {
                    let ghost suffix = s@.skip(start as int);
                    let ghost cut = k - start;
                    proof {
                        assert(forall|i2: int|
                            0 <= i2 < suffix.len() ==> #[trigger] suffix[i2] == s@[start + i2]);
                        lemma_first_pipe_at(suffix, cut as int);
                        lemma_trim_len(suffix.take(cut as int));
                        assert(suffix.take(cut as int) =~= s@.subrange(start as int, k as int));
                        assert(suffix.skip(cut as int + 1) =~= s@.skip(k as int + 1));
                        assert(!spec_has_pipe(s@.subrange(start as int, k as int)));
                        lemma_trim_no_pipe(s@.subrange(start as int, k as int));
                    }
                    let sub = s.substring_char(start, k);
                    let piece = trim_text(sub);
                    proof {
                        lemma_trim_len(sub@);
                        assert(piece@.len() < s@.len());
                        assert(spec_parse(piece@) == spec_parse_atom(piece@));
                    }
                    match DocumentDataType::from_str(piece.as_str()) {
                        Ok(t) => {
                            proof {
                                let ghost tail = spec_parse_pieces(s@.skip(k as int + 1));
                                assert(spec_parse_pieces(suffix) == (match (spec_parse_atom(
                                    piece@,
                                ), tail) {
                                    (Some(t0), Some(ts)) => Some(seq![t0] + ts),
                                    _ => None,
                                }));
                                if tail is Some {
                                    assert(data_type_views(parts@) + (seq![t@] + tail->Some_0)
                                        =~= data_type_views(parts@.push(t)) + tail->Some_0);
                                    assert(data_type_views(parts@.push(t))
                                        =~= data_type_views(parts@).push(t@));
                                }
                            }
                            parts.push(t);
                        },
                        Err(e) => {
                            proof {
                                assert(spec_parse_atom(piece@) is None);
                                assert(spec_parse_pieces(suffix) is None);
                                assert(spec_parse_pieces(s@) is None);
                                assert(spec_parse(s@) is None);
                            }
                            return Err(e);
                        },
                    }
                    start = k + 1;
                }
                k = k + 1;
            }
            let ghost suffix = s@.skip(start as int);
            let ghost cut = n - start;
            proof {
                assert(forall|i2: int|
                    0 <= i2 < suffix.len() ==> #[trigger] suffix[i2] == s@[start + i2]);
                lemma_first_pipe_at(suffix, cut as int);
                lemma_trim_len(suffix.take(cut as int));
                assert(suffix.take(cut as int) =~= s@.subrange(start as int, n as int));
                assert(!spec_has_pipe(s@.subrange(start as int, n as int)));
                lemma_trim_no_pipe(s@.subrange(start as int, n as int));
                let pipe_w = choose|j: int| 0 <= j < s@.len() && s@[j] == '|';
                assert(start > 0);
            }
            let sub = s.substring_char(start, n);
            let piece = trim_text(sub);
            proof {
                lemma_trim_len(sub@);
                assert(piece@.len() < s@.len());
                assert(spec_parse(piece@) == spec_parse_atom(piece@));
            }
            match DocumentDataType::from_str(piece.as_str()) {
                Ok(t) => {
                    proof {
                        assert(spec_parse_pieces(suffix) == (match spec_parse_atom(piece@) {
                            Some(t0) => Some(seq![t0]),
                            None => None,
                        }));
                        assert(data_type_views(parts@) + seq![t@] =~= data_type_views(
                            parts@.push(t),
                        ));
                    }
                    parts.push(t);
                    let r = DocumentDataType::Types(parts);
                    proof {
                        assert(r@ matches DataTypeView::Types(ts) && ts =~= data_type_views(
                            r->Types_0@,
                        ));
                        assert(spec_parse(s@) == Some(DataTypeView::Types(data_type_views(
                            r->Types_0@,
                        ))));
                    }
                    Ok(r)
                },
                Err(e) => {
                    proof {
                        assert(spec_parse_atom(piece@) is None);
                        assert(spec_parse_pieces(suffix) is None);
                        assert(spec_parse_pieces(s@) is None);
                        assert(spec_parse(s@) is None);
                    }
                    Err(e)
                },
            }
        } else {
            let is_list = n >= 4 && {
                let c0 = s.get_char(0);
                let c1 = s.get_char(1);
                let c2 = s.get_char(2);
                let c3 = s.get_char(3);
                c0 == 'L' && c1 == 'i' && c2 == 's' && c3 == 't'
            };
            proof {
                reveal_strlit("List");
                if n >= 4 {
                    if s@[0] == 'L' && s@[1] == 'i' && s@[2] == 's' && s@[3] == 't' {
                        assert(s@.subrange(0, 4) =~= "List"@);
                    }
                    if s@.subrange(0, 4) == "List"@ {
                        assert(s@[0] == s@.subrange(0, 4)[0]);
                        assert(s@[1] == s@.subrange(0, 4)[1]);
                        assert(s@[2] == s@.subrange(0, 4)[2]);
                        assert(s@[3] == s@.subrange(0, 4)[3]);
                    }
                    assert(is_list == spec_is_list_form(s@));
                } else {
                    assert(!spec_is_list_form(s@));
                }
            }
            if is_list {
                if n < 6 {
                    proof {
                        assert(spec_parse_atom(s@) is None);
                    }
                    Err(String::from_str("malformed list type"))
                } else {
                    let inner = s.substring_char(5, n - 1);
                    let inner_owned = inner.to_owned();
                    match DocumentDataType::from_str(inner_owned.as_str()) {
                        Ok(t) => {
                            let r = DocumentDataType::List(Box::new(t));
                            proof {
                                assert(spec_parse_atom(s@) == Some(DataTypeView::List(Box::new(
                                    t@,
                                ))));
                            }
                            Ok(r)
                        },
                        Err(e) => Err(e),
                    }
                }
            } else {
                Ok(DocumentDataType::Type(s.to_owned()))
            }
        }
    }
}

/// One named, typed field of a schema.
#[derive(Debug)]
pub struct Field {
    pub name: String,
    pub data_type: DocumentDataType,
}

/// A named data schema: the fields of a section's header record and the
/// fields of its item records.
#[derive(Debug)]
pub struct DataSchema {
    pub name: String,
    pub header_schema: Vec<Field>,
    pub item_schema: Vec<Field>,
}

/// The names of a sequence of data schemas.
pub open spec fn data_schema_names(s: Seq<DataSchema>) -> Seq<Seq<char>> {
    Seq::new(
        s.len(),
        |i: int|
            if 0 <= i < s.len() {
                s[i].name@
            } else {
                Seq::empty()
            },
    )
}

/// The first data schema under the given name, if any.
pub fn find_data_schema<'a>(schemas: &'a Vec<DataSchema>, name: &str) -> (r: Option<&'a DataSchema>)
    ensures
        r is Some <==> spec_find_schema(data_schema_names(schemas@), name@) is Some,
        r matches Some(d) ==> spec_find_schema(data_schema_names(schemas@), name@) matches Some(i)
            && 0 <= i < schemas@.len() && d == &schemas@[i],
{
    let key: String = name.to_owned();
    let ghost names = data_schema_names(schemas@);
    let mut i: usize = 0;
    proof {
        crate::layout_schema::lemma_find_schema_range(names, name@);
    }
    while i < schemas.len()
        invariant
            i <= schemas@.len(),
            key@ == name@,
            names == data_schema_names(schemas@),
            forall|j: int| 0 <= j < i ==> #[trigger] names[j] != name@,
        decreases schemas@.len() - i,
    {
        proof {
            assert(names[i as int] == schemas@[i as int].name@);
        }
        if schemas[i].name == key {
            proof {
                crate::layout_schema::lemma_find_schema_at(names, name@, i as int);
            }
            return Some(&schemas[i]);
        }
        i = i + 1;
    }
    proof {
        crate::layout_schema::lemma_find_schema_none(names, name@);
    }
    None
}

} // verus!
