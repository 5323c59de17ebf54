//! A named pair of layout templates: one for a section's header, one for
//! its items.

use vstd::prelude::*;

use crate::layout::Layout;

verus! {

/// The layout schema of one section kind: the template its header is bound
/// against and the template each of its items is bound against.
#[derive(Debug)]
pub struct LayoutSchema {
    pub schema_name: String,
    pub header_layout_schema: Layout,
    pub item_layout_schema: Layout,
}

/// The index of the first schema with the given name, if any.
pub open spec fn spec_find_schema(names: Seq<Seq<char>>, name: Seq<char>) -> Option<int>
    decreases names.len(),
{
    if names.len() == 0 {
        None
    } else if names.first() == name {
        Some(0)
    } else {
        match spec_find_schema(names.drop_first(), name) {
            Some(i) => Some(i + 1),
            None => None,
        }
    }
}

/// The names of a sequence of layout schemas.
pub open spec fn layout_schema_names(s: Seq<LayoutSchema>) -> Seq<Seq<char>> {
    Seq::new(
        s.len(),
        |i: int|
            if 0 <= i < s.len() {
                s[i].schema_name@
            } else {
                Seq::empty()
            },
    )
}

/// The first layout schema under the given name, if any.
pub fn find_layout_schema<'a>(schemas: &'a Vec<LayoutSchema>, name: &str) -> (r: Option<
    &'a LayoutSchema,
>)
    ensures
        r is Some <==> spec_find_schema(layout_schema_names(schemas@), name@) is Some,
        r matches Some(s) ==> spec_find_schema(layout_schema_names(schemas@), name@) matches Some(
            i,
        ) && 0 <= i < schemas@.len() && s == &schemas@[i],
{
    let ghost names = layout_schema_names(schemas@);
    let key: String = name.to_owned();
    let mut i: usize = 0;
    proof {
        lemma_find_schema_range(names, name@);
    }
    while i < schemas.len()
        invariant
            i <= schemas@.len(),
            key@ == name@,
            names == layout_schema_names(schemas@),
            spec_find_schema(names, name@) matches Some(k) ==> i <= k < names.len(),
            forall|j: int| 0 <= j < i ==> #[trigger] names[j] != name@,
        decreases schemas@.len() - i,
    {
        proof {
            assert(names[i as int] == schemas@[i as int].schema_name@);
        }
        if schemas[i].schema_name == key {
            proof {
                lemma_find_schema_at(names, name@, i as int);
            }
            return Some(&schemas[i]);
        }
        i = i + 1;
        proof {
            lemma_find_schema_skip(names, name@, i as int);
        }
    }
    proof {
        lemma_find_schema_none(names, name@);
    }
    None
}

/// A found index lies within the sequence.
pub proof fn lemma_find_schema_range(names: Seq<Seq<char>>, name: Seq<char>)
    ensures
        spec_find_schema(names, name) matches Some(k) ==> 0 <= k < names.len(),
    decreases names.len(),
{
    if names.len() > 0 && names.first() != name {
        lemma_find_schema_range(names.drop_first(), name);
    }
}

/// When the first match is at `i`, the search returns `i`.
pub proof fn lemma_find_schema_at(names: Seq<Seq<char>>, name: Seq<char>, i: int)
    requires
        0 <= i < names.len(),
        names[i] == name,
        forall|j: int| 0 <= j < i ==> #[trigger] names[j] != name,
    ensures
        spec_find_schema(names, name) == Some(i),
    decreases i,
{
    if i == 0 {
    } else {
        assert forall|j: int| 0 <= j < i - 1 implies #[trigger] names.drop_first()[j] != name by {
            assert(names.drop_first()[j] == names[j + 1]);
        }
        assert(names.drop_first()[i - 1] == names[i]);
        lemma_find_schema_at(names.drop_first(), name, i - 1);
    }
}

/// A found index never lies before the scanned prefix.
pub proof fn lemma_find_schema_skip(names: Seq<Seq<char>>, name: Seq<char>, i: int)
    requires
        0 <= i <= names.len(),
        forall|j: int| 0 <= j < i ==> #[trigger] names[j] != name,
    ensures
        spec_find_schema(names, name) matches Some(k) ==> i <= k < names.len(),
    decreases i,
{
    lemma_find_schema_range(names, name);
    if i > 0 && names.len() > 0 {
        assert(names[0] != name);
        assert forall|j: int| 0 <= j < i - 1 implies #[trigger] names.drop_first()[j] != name by {
            assert(names.drop_first()[j] == names[j + 1]);
        }
        lemma_find_schema_skip(names.drop_first(), name, i - 1);
    }
}

/// When no name matches, the search finds nothing.
pub proof fn lemma_find_schema_none(names: Seq<Seq<char>>, name: Seq<char>)
    requires
        forall|j: int| 0 <= j < names.len() ==> #[trigger] names[j] != name,
    ensures
        spec_find_schema(names, name) is None,
    decreases names.len(),
{
    if names.len() > 0 {
        assert forall|j: int|
            0 <= j < names.drop_first().len() implies #[trigger] names.drop_first()[j] != name by {
            assert(names.drop_first()[j] == names[j + 1]);
        }
        lemma_find_schema_none(names.drop_first(), name);
    }
}

} // verus!
