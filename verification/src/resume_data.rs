//! The data a template is instantiated with: named sections of records.

use vstd::prelude::*;
use vstd::string::*;

verus! {

/// One field value of a record: absent, a plain string, a list of strings,
/// or a link carrying both a target and the text shown for it.
#[derive(Debug, Clone)]
pub enum ItemContent {
    Absent,
    Text(String),
    List(Vec<String>),
    Link { url: String, text: String },
}

/// The mathematical model of a field value.
pub enum ItemContentView {
    Absent,
    Text(Seq<char>),
    List(Seq<Seq<char>>),
    Link { url: Seq<char>, text: Seq<char> },
}

impl View for ItemContent {
    type V = ItemContentView;

    open spec fn view(&self) -> ItemContentView {
        match self {
            ItemContent::Absent => ItemContentView::Absent,
            ItemContent::Text(s) => ItemContentView::Text(s@),
            ItemContent::List(xs) => ItemContentView::List(
                Seq::new(
                    xs@.len(),
                    |i: int|
                        if 0 <= i < xs@.len() {
                            xs@[i]@
                        } else {
                            Seq::empty()
                        },
                ),
            ),
            ItemContent::Link { url, text } => ItemContentView::Link { url: url@, text: text@ },
        }
    }
}

/// What joining a list of strings with `", "` yields.
pub open spec fn spec_join_comma(xs: Seq<Seq<char>>) -> Seq<char>
    decreases xs.len(),
{
    if xs.len() == 0 {
        Seq::empty()
    } else if xs.len() == 1 {
        xs.first()
    } else {
        xs.first() + ", "@ + spec_join_comma(xs.drop_first())
    }
}

impl ItemContentView {
    /// The text a field value renders as: nothing when absent, the string
    /// itself, a comma-joined list, or a link's shown text.
    pub open spec fn spec_as_text(self) -> Seq<char> {
        match self {
            ItemContentView::Absent => Seq::empty(),
            ItemContentView::Text(s) => s,
            ItemContentView::List(xs) => spec_join_comma(xs),
            ItemContentView::Link { url: _, text } => text,
        }
    }
}

impl ItemContent {
    /// The text this field value renders as.
    pub fn as_text(&self) -> (r: String)
        ensures
            r@ == self@.spec_as_text(),
    {
        match self {
            ItemContent::Absent => String::new(),
            ItemContent::Text(s) => s.clone(),
            ItemContent::List(xs) => {
                let ghost xv = self@->List_0;
                if xs.len() == 0 {
                    String::new()
                } else {
                    let mut out: String = xs[0].clone();
                    let mut i: usize = 1;
                    proof {
                        assert(xv[0] == xs@[0]@);
                        lemma_join_comma_tail(xv);
                        assert(xv.drop_first() =~= xv.skip(1));
                    }
                    while i < xs.len()
                        invariant
                            1 <= i <= xs@.len(),
                            xv.len() == xs@.len(),
                            forall|j: int| 0 <= j < xs@.len() ==> xv[j] == #[trigger] xs@[j]@,
                            spec_join_comma(xv) == out@ + spec_join_tail(xv.skip(i as int)),
                        decreases xs@.len() - i,
                    {
                        out.append(", ");
                        out.append(xs[i].as_str());
                        proof {
                            assert(xv.skip(i as int).drop_first() =~= xv.skip(i as int + 1));
                        }
                        i = i + 1;
                    }
                    proof {
                        assert(xv.skip(i as int) =~= Seq::<Seq<char>>::empty());
                    }
                    out
                }
            },
            ItemContent::Link { url: _, text } => text.clone(),
        }
    }

    /// A copy of this field value with the same model.
    pub fn duplicate(&self) -> (r: ItemContent)
        ensures
            r@ == self@,
    {
        match self {
            ItemContent::Absent => ItemContent::Absent,
            ItemContent::Text(s) => ItemContent::Text(s.clone()),
            ItemContent::List(xs) => {
                let mut out: Vec<String> = Vec::new();
                let mut i: usize = 0;
                while i < xs.len()
                    invariant
                        i <= xs@.len(),
                        out@.len() == i,
                        forall|j: int| 0 <= j < i ==> #[trigger] out@[j]@ == xs@[j]@,
                    decreases xs@.len() - i,
                {
                    out.push(xs[i].clone());
                    i = i + 1;
                }
                let r = ItemContent::List(out);
                proof {
                    assert(r@->List_0 =~= self@->List_0);
                }
                r
            },
            ItemContent::Link { url, text } => ItemContent::Link {
                url: url.clone(),
                text: text.clone(),
            },
        }
    }
}

/// The tail `spec_join_comma` still owes after some strings were joined:
/// each remaining string preceded by the separator.
pub open spec fn spec_join_tail(xs: Seq<Seq<char>>) -> Seq<char>
    decreases xs.len(),
{
    if xs.len() == 0 {
        Seq::empty()
    } else {
        ", "@ + xs.first() + spec_join_tail(xs.drop_first())
    }
}

/// Joining splits into the first string and the owed tail.
pub proof fn lemma_join_comma_tail(xs: Seq<Seq<char>>)
    requires
        xs.len() >= 1,
    ensures
        spec_join_comma(xs) == xs.first() + spec_join_tail(xs.drop_first()),
    decreases xs.len(),
{
    if xs.len() == 1 {
        assert(xs.first() + spec_join_tail(xs.drop_first()) =~= xs.first());
    } else {
        lemma_join_comma_tail(xs.drop_first());
        assert(xs.first() + ", "@ + spec_join_comma(xs.drop_first()) =~= xs.first() + (", "@
            + xs.drop_first().first() + spec_join_tail(xs.drop_first().drop_first())));
    }
}

/// One record: an ordered mapping from field names to field values.  The
/// first entry under a name wins.
#[derive(Debug, Clone)]
pub struct ItemRecord {
    pub entries: Vec<(String, ItemContent)>,
}

/// What looking a name up in a record yields: the value of the first entry
/// under that name.
pub open spec fn spec_lookup(
    entries: Seq<(Seq<char>, ItemContentView)>,
    name: Seq<char>,
) -> Option<ItemContentView>
    decreases entries.len(),
{
    if entries.len() == 0 {
        None
    } else if entries.first().0 == name {
        Some(entries.first().1)
    } else {
        spec_lookup(entries.drop_first(), name)
    }
}

/// The model of a record.
pub open spec fn record_view(entries: Seq<(String, ItemContent)>) -> Seq<
    (Seq<char>, ItemContentView),
> {
    Seq::new(
        entries.len(),
        |i: int|
            if 0 <= i < entries.len() {
                (entries[i].0@, entries[i].1@)
            } else {
                (Seq::empty(), ItemContentView::Absent)
            },
    )
}

impl View for ItemRecord {
    type V = Seq<(Seq<char>, ItemContentView)>;

    open spec fn view(&self) -> Seq<(Seq<char>, ItemContentView)> {
        record_view(self.entries@)
    }
}

impl ItemRecord {
    /// The record with no fields.
    pub fn new() -> (r: ItemRecord)
        ensures
            r@ =~= Seq::<(Seq<char>, ItemContentView)>::empty(),
    {
        ItemRecord { entries: Vec::new() }
    }

    /// Add a field at the end.
    pub fn push(&mut self, name: String, value: ItemContent)
        ensures
            final(self)@ =~= old(self)@.push((name@, value@)),
    {
        let ghost oldv = self@;
        self.entries.push((name, value));
        proof {
            assert(final(self)@ =~= oldv.push(
                (final(self).entries@.last().0@, final(self).entries@.last().1@),
            ));
        }
    }

    /// The value of the first field under `name`, if any.
    pub fn get(&self, name: &str) -> (r: Option<&ItemContent>)
        ensures
            r is Some <==> spec_lookup(self@, name@) is Some,
            r matches Some(c) ==> spec_lookup(self@, name@) == Some(c@),
    {
        let key: String = name.to_owned();
        let mut i: usize = 0;
        proof {
            assert(self@.skip(0) =~= self@);
        }
        while i < self.entries.len()
            invariant
                i <= self.entries@.len(),
                key@ == name@,
                spec_lookup(self@, name@) == spec_lookup(self@.skip(i as int), name@),
            decreases self.entries@.len() - i,
        {
            proof {
                assert(self@.skip(i as int).first() == (self.entries@[i as int].0@,
                self.entries@[i as int].1@));
                assert(self@.skip(i as int).drop_first() =~= self@.skip(i as int + 1));
            }
            if self.entries[i].0 == key {
                return Some(&self.entries[i].1);
            }
            i = i + 1;
        }
        proof {
            assert(self@.skip(i as int) =~= Seq::<(Seq<char>, ItemContentView)>::empty());
        }
        None
    }
}

/// One document section: its name, the names of the data and layout schemas
/// it uses, its header record and its item records.
#[derive(Debug, Clone)]
pub struct ResumeSection {
    pub name: String,
    pub data_schema: String,
    pub layout_schema: String,
    pub data: ItemRecord,
    pub items: Vec<ItemRecord>,
}

/// A whole document's data: the name of its page layout and its sections in
/// order.
#[derive(Debug, Clone)]
pub struct ResumeData {
    pub layout: String,
    pub sections: Vec<ResumeSection>,
}

} // verus!
