//! Plain-text layout schemas: templates with `{field}` placeholders filled
//! straight from records.

use vstd::prelude::*;
use vstd::string::*;

use crate::data_schema::{data_schema_names, find_data_schema, DataSchema, Field};
use crate::error::LayoutError;
use crate::layout_schema::spec_find_schema;
use crate::resume_data::{spec_lookup, ItemContentView, ItemRecord, ResumeData, ResumeSection};

verus! {

/// The plain-text layout schema of one section kind: a header template and
/// an item template, each a string with `{field}` placeholders.
#[derive(Debug)]
pub struct TextLayoutSchema {
    pub schema_name: String,
    pub header_layout_schema: String,
    pub item_layout_schema: String,
}

/// What replacing every non-overlapping occurrence of `pat` in `s` by
/// `repl`, left to right, yields.  An empty pattern replaces nothing.
pub open spec fn spec_replace(s: Seq<char>, pat: Seq<char>, repl: Seq<char>) -> Seq<char>
    decreases s.len(),
{
    if pat.len() == 0 || s.len() < pat.len() {
        s
    } else if s.take(pat.len() as int) == pat {
        repl + spec_replace(s.skip(pat.len() as int), pat, repl)
    } else {
        seq![s.first()] + spec_replace(s.drop_first(), pat, repl)
    }
}

/// Whether `pat` occurs at position `i` of `s`.
fn matches_at(s: &str, pat: &str, i: usize) -> (r: bool)
    requires
        i + pat@.len() <= s@.len(),
        i + pat@.len() <= usize::MAX,
    ensures
        r == (s@.subrange(i as int, i + pat@.len()) == pat@),
{
    let m = pat.unicode_len();
    let mut j: usize = 0;
    while j < m
        invariant
            m == pat@.len(),
            i + m <= s@.len(),
            i + m <= usize::MAX,
            j <= m,
            forall|k: int| 0 <= k < j ==> s@[i + k] == pat@[k],
        decreases m - j,
    {
        if s.get_char(i + j) != pat.get_char(j) {
            proof {
                assert(s@.subrange(i as int, i + pat@.len())[j as int] != pat@[j as int]);
            }
            return false;
        }
        j = j + 1;
    }
    proof {
        assert(s@.subrange(i as int, i + pat@.len()) =~= pat@);
    }
    true
}

/// Replace every non-overlapping occurrence of `pat` in `s` by `repl`, left
/// to right.
pub fn replace_text(s: &str, pat: &str, repl: &str) -> (r: String)
    requires
        pat@.len() >= 1,
    ensures
        r@ == spec_replace(s@, pat@, repl@),
{
    let n = s.unicode_len();
    let m = pat.unicode_len();
    let mut out = String::new();
    let mut i: usize = 0;
    proof {
        assert(s@.skip(0) =~= s@);
        assert(out@ + spec_replace(s@, pat@, repl@) =~= spec_replace(s@, pat@, repl@));
    }
    while i < n
        invariant
            n == s@.len(),
            m == pat@.len(),
            m >= 1,
            i <= n,
            spec_replace(s@, pat@, repl@) == out@ + spec_replace(s@.skip(i as int), pat@, repl@),
        decreases n - i,
    {
        let ghost rem = s@.skip(i as int);
        let hit = if m <= n - i {
            matches_at(s, pat, i)
        } else {
            false
        };
        if hit {
            proof {
                assert(i + m <= n);
                assert(rem.take(m as int) =~= s@.subrange(i as int, i + m));
                assert(rem.skip(m as int) =~= s@.skip(i + m));
            }
            out.append(repl);
            i = i + m;
        } else {
            proof {
                if i + m <= n {
                    assert(rem.take(m as int) =~= s@.subrange(i as int, i + m));
                }
                assert(rem.drop_first() =~= s@.skip(i as int + 1));
                assert(rem.first() == s@[i as int]);
            }
            let c = s.substring_char(i, i + 1);
            out.append(c);
            proof {
                assert(c@ =~= seq![s@[i as int]]);
            }
            i = i + 1;
        }
    }
    proof {
        assert(s@.skip(i as int) =~= Seq::<char>::empty());
        assert(out@ + Seq::<char>::empty() =~= out@);
    }
    out
}

/// The text a record's field renders as: the field's value, or nothing when
/// the record lacks it.
pub open spec fn spec_field_text(
    rec: Seq<(Seq<char>, ItemContentView)>,
    name: Seq<char>,
) -> Seq<char> {
    match spec_lookup(rec, name) {
        Some(c) => c.spec_as_text(),
        None => Seq::empty(),
    }
}

/// The placeholder pattern of a field name: the name in braces.
pub open spec fn spec_braced(name: Seq<char>) -> Seq<char> {
    seq!['{'] + name + seq!['}']
}

/// What filling a template against a record yields: for each field in
/// order, its placeholder is replaced by the record's value for it.
pub open spec fn spec_fill_template(
    t: Seq<char>,
    fields: Seq<Field>,
    rec: Seq<(Seq<char>, ItemContentView)>,
) -> Seq<char>
    decreases fields.len(),
{
    if fields.len() == 0 {
        t
    } else {
        spec_fill_template(
            spec_replace(
                t,
                spec_braced(fields.first().name@),
                spec_field_text(rec, fields.first().name@),
            ),
            fields.drop_first(),
            rec,
        )
    }
}

/// Fill a template against a record: each field's `{name}` placeholder is
/// replaced, in field order, by the record's value for the field, or by
/// nothing when the record lacks it.
pub fn fill_template(template: &str, fields: &Vec<Field>, record: &ItemRecord) -> (r: String)
    ensures
        r@ == spec_fill_template(template@, fields@, record@),
{
    let ghost fv = fields@;
    let mut cur: String = template.to_owned();
    let mut i: usize = 0;
    proof {
        assert(fv.skip(0) =~= fv);
    }
    while i < fields.len()
        invariant
            i <= fields@.len(),
            fv == fields@,
            spec_fill_template(template@, fv, record@) == spec_fill_template(
                cur@,
                fv.skip(i as int),
                record@,
            ),
        decreases fields@.len() - i,
    {
        proof {
            assert(fv.skip(i as int).first() == fv[i as int]);
            assert(fv.skip(i as int).drop_first() =~= fv.skip(i as int + 1));
        }
        let mut pat = String::from_str("{");
        pat.append(fields[i].name.as_str());
        pat.append("}");
        proof {
            reveal_strlit("{");
            reveal_strlit("}");
            assert("{"@ =~= seq!['{']);
            assert("}"@ =~= seq!['}']);
            assert(pat@ == spec_braced(fv[i as int].name@));
        }
        let value = match record.get(fields[i].name.as_str()) {
            Some(c) => c.as_text(),
            None => String::new(),
        };
        proof {
            assert(value@ == spec_field_text(record@, fv[i as int].name@));
        }
        cur = replace_text(cur.as_str(), pat.as_str(), value.as_str());
        i = i + 1;
    }
    proof {
        assert(fv.skip(i as int) =~= Seq::<Field>::empty());
    }
    cur
}

/// The names of a sequence of plain-text layout schemas.
pub open spec fn text_schema_names(s: Seq<TextLayoutSchema>) -> Seq<Seq<char>> {
    Seq::new(
        s.len(),
        |i: int|
            if 0 <= i < s.len() {
                s[i].schema_name@
            } else {
                Seq::empty()
            },
    )
}

/// What one section renders as: its header template filled against its
/// header record, then the item template filled against each item record,
/// in order.
pub open spec fn spec_section_text(
    ls: TextLayoutSchema,
    ds: DataSchema,
    sec: ResumeSection,
) -> Seq<char> {
    spec_fill_template(ls.header_layout_schema@, ds.header_schema@, sec.data@) + spec_items_text(
        ls.item_layout_schema@,
        ds.item_schema@,
        sec.items@,
    )
}

/// The item records' filled texts, concatenated in order.
pub open spec fn spec_items_text(
    template: Seq<char>,
    fields: Seq<Field>,
    items: Seq<ItemRecord>,
) -> Seq<char>
    decreases items,
{
    if items.len() == 0 {
        Seq::empty()
    } else {
        spec_fill_template(template, fields, items.first()@) + spec_items_text(
            template,
            fields,
            items.drop_first(),
        )
    }
}

/// The whole document's text, section by section; nothing when some section
/// references a layout or data schema the loaded sets lack.
pub open spec fn spec_render_text(
    schemas: Seq<TextLayoutSchema>,
    dschemas: Seq<DataSchema>,
    sections: Seq<ResumeSection>,
) -> Option<Seq<char>>
    decreases sections,
{
    if sections.len() == 0 {
        Some(Seq::empty())
    } else {
        let sec = sections.first();
        match (
            spec_find_schema(text_schema_names(schemas), sec.layout_schema@),
            spec_find_schema(data_schema_names(dschemas), sec.data_schema@),
        ) {
            (Some(li), Some(di)) => match spec_render_text(
                schemas,
                dschemas,
                sections.drop_first(),
            ) {
                Some(rest) => Some(spec_section_text(schemas[li], dschemas[di], sec) + rest),
                None => None,
            },
            _ => None,
        }
    }
}

/// Text already rendered, followed by the outcome of the rest.
pub open spec fn spec_prepend_text(t: Seq<char>, o: Option<Seq<char>>) -> Option<Seq<char>> {
    match o {
        Some(rest) => Some(t + rest),
        None => None,
    }
}

impl TextLayoutSchema {
    /// Render a document as plain text: for each section, its header
    /// template filled against the header record, then its item template
    /// filled against each item record, all concatenated in order.  A
    /// section that references a missing layout or data schema aborts the
    /// render.
    pub fn render_contents(
        layout_schemas: &Vec<TextLayoutSchema>,
        resume_data: &ResumeData,
        data_schemas: &Vec<DataSchema>,
    ) -> (r: Result<String, LayoutError>)
        ensures
            r is Ok <==> spec_render_text(
                layout_schemas@,
                data_schemas@,
                resume_data.sections@,
            ) is Some,
            r matches Ok(out) ==> Some(out@) == spec_render_text(
                layout_schemas@,
                data_schemas@,
                resume_data.sections@,
            ),
            r matches Err(e) ==> e is SchemaNotFound,
    {
        let ghost sections = resume_data.sections@;
        let ghost total = spec_render_text(layout_schemas@, data_schemas@, sections);
        let mut contents = String::new();
        let mut si: usize = 0;
        proof {
            assert(sections.skip(0) =~= sections);
            if total is Some {
                assert(Seq::<char>::empty() + total->Some_0 =~= total->Some_0);
            }
        }
        #[verifier::loop_isolation(false)]
        while si < resume_data.sections.len()
            invariant
                si <= sections.len(),
                spec_prepend_text(
                    contents@,
                    spec_render_text(layout_schemas@, data_schemas@, sections.skip(si as int)),
                ) == total,
            decreases sections.len() - si,
        {
            let ghost rest_secs = sections.skip(si as int);
            proof {
                assert(rest_secs.first() == sections[si as int]);
                assert(rest_secs.drop_first() =~= sections.skip(si as int + 1));
            }
            let sec = &resume_data.sections[si];
            let ls = match Self::find_text_schema(layout_schemas, sec.layout_schema.as_str()) {
                Some(ls) => ls,
                None => {
                    proof {
                        assert(spec_render_text(layout_schemas@, data_schemas@, rest_secs)
                            is None);
                        assert(total is None);
                    }
                    return Err(LayoutError::SchemaNotFound(sec.layout_schema.clone()));
                },
            };
            let ds = match find_data_schema(data_schemas, sec.data_schema.as_str()) {
                Some(ds) => ds,
                None => {
                    proof {
                        assert(spec_render_text(layout_schemas@, data_schemas@, rest_secs)
                            is None);
                        assert(total is None);
                    }
                    return Err(LayoutError::SchemaNotFound(sec.data_schema.clone()));
                },
            };
            let ghost base = contents@;
            let ghost sect = spec_section_text(*ls, *ds, sections[si as int]);
            let header = fill_template(
                ls.header_layout_schema.as_str(),
                &ds.header_schema,
                &sec.data,
            );
            contents.append(header.as_str());
            let mut ii: usize = 0;
            proof {
                assert(sec.items@.skip(0) =~= sec.items@);
                assert(base + header@ + spec_items_text(
                    ls.item_layout_schema@,
                    ds.item_schema@,
                    sec.items@,
                ) =~= base + sect);
            }
            #[verifier::loop_isolation(false)]
            while ii < sec.items.len()
                invariant
                    ii <= sec.items@.len(),
                    contents@ + spec_items_text(
                        ls.item_layout_schema@,
                        ds.item_schema@,
                        sec.items@.skip(ii as int),
                    ) == base + sect,
                decreases sec.items@.len() - ii,
            {
                let ghost rest_items = sec.items@.skip(ii as int);
                proof {
                    assert(rest_items.first() == sec.items@[ii as int]);
                    assert(rest_items.drop_first() =~= sec.items@.skip(ii as int + 1));
                }
                let item = fill_template(
                    ls.item_layout_schema.as_str(),
                    &ds.item_schema,
                    &sec.items[ii],
                );
                let ghost before = contents@;
                contents.append(item.as_str());
                proof {
                    assert(before + (item@ + spec_items_text(
                        ls.item_layout_schema@,
                        ds.item_schema@,
                        sec.items@.skip(ii as int + 1),
                    )) =~= contents@ + spec_items_text(
                        ls.item_layout_schema@,
                        ds.item_schema@,
                        sec.items@.skip(ii as int + 1),
                    ));
                }
                ii = ii + 1;
            }
            proof {
                assert(sec.items@.skip(ii as int) =~= Seq::<ItemRecord>::empty());
                assert(contents@ + Seq::<char>::empty() =~= contents@);
                assert(contents@ == base + sect);
                let rest = spec_render_text(
                    layout_schemas@,
                    data_schemas@,
                    sections.skip(si as int + 1),
                );
                assert(spec_render_text(layout_schemas@, data_schemas@, rest_secs)
                    == spec_prepend_text(sect, rest));
                if rest is Some {
                    assert(base + (sect + rest->Some_0) =~= contents@ + rest->Some_0);
                }
            }
            si = si + 1;
        }
        proof {
            assert(sections.skip(si as int) =~= Seq::<ResumeSection>::empty());
            assert(contents@ + Seq::<char>::empty() =~= contents@);
        }
        Ok(contents)
    }

    /// The first plain-text layout schema under the given name, if any.
    pub fn find_text_schema<'a>(schemas: &'a Vec<TextLayoutSchema>, name: &str) -> (r: Option<
        &'a TextLayoutSchema,
    >)
        ensures
            r is Some <==> spec_find_schema(text_schema_names(schemas@), name@) is Some,
            r matches Some(s) ==> spec_find_schema(text_schema_names(schemas@), name@)
                matches Some(i) && 0 <= i < schemas@.len() && s == &schemas@[i],
    {
        let key: String = name.to_owned();
        let ghost names = text_schema_names(schemas@);
        let mut i: usize = 0;
        while i < schemas.len()
            invariant
                i <= schemas@.len(),
                key@ == name@,
                names == text_schema_names(schemas@),
                forall|j: int| 0 <= j < i ==> #[trigger] names[j] != name@,
            decreases schemas@.len() - i,
        {
            proof {
                assert(names[i as int] == schemas@[i as int].schema_name@);
            }
            if schemas[i].schema_name == key {
                proof {
                    crate::layout_schema::lemma_find_schema_at(names, name@, i as int);
                }
                return Some(&schemas[i]);
            }
            i = i + 1;
        }
        proof {
            crate::layout_schema::lemma_find_schema_none(names, name@);
        }
        None
    }
}

} // verus!
