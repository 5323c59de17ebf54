//! End-to-end tests of the layout pipeline against a real system font.

use cvlayout::alignment::Alignment;
use cvlayout::any_layout::AnyLayout;
use cvlayout::container::Container;
use cvlayout::data_schema::DataSchema;
use cvlayout::document::DocumentDefinition;
use cvlayout::element::Element;
use cvlayout::error::LayoutError;
use cvlayout::font::{FontDict, FontRef};
use cvlayout::layout::Layout;
use cvlayout::layout_schema::LayoutSchema;
use cvlayout::margin::Margin;
use cvlayout::resume_data::{ItemContent, ItemRecord, ResumeData, ResumeSection};
use cvlayout::resume_layout::{ColumnType, ResumeLayout};
use cvlayout::width::Width;

use font_kit::family_name::FamilyName;
use font_kit::properties::Properties;
use font_kit::source::SystemSource;

fn load_dict() -> FontDict {
    let handle = SystemSource::new()
        .select_best_match(&[FamilyName::SansSerif], &Properties::new())
        .expect("no system font");
    let font = handle.load().expect("font load");
    let data = font.copy_font_data().expect("font data");
    let mut dict = FontDict::new();
    let ok = dict.load_font_bytes(String::from("Arial-Medium"), (*data).clone());
    assert!(ok);
    dict
}

fn text_element(item: &str, width: Width) -> Element {
    Element::default().with_item(String::from(item)).with_width(width)
}

fn record(pairs: &[(&str, &str)]) -> ItemRecord {
    let mut r = ItemRecord::new();
    for (k, v) in pairs {
        r.push(String::from(*k), ItemContent::Text(String::from(*v)));
    }
    r
}

#[test]
fn instantiate_binds_all_placeholders() {
    let rec = record(&[("School", "MIT")]);
    let tree = Layout::new_stack(Container::empty_container().with_elements(vec![
        Layout::new_ref(text_element("School", Width::Fixed(100))),
        Layout::new_ref(text_element("Missing", Width::Fill)),
        Layout::new_text(text_element("plain", Width::Fixed(10))),
    ]));
    assert!(!tree.is_instantiated());
    let bound = tree.instantiate(&rec);
    assert!(bound.is_instantiated());
}

#[test]
fn instantiate_ref_found_becomes_text() {
    let rec = record(&[("School", "MIT")]);
    let tree = Layout::new_ref(text_element("School", Width::Fixed(100)));
    let bound = tree.instantiate(&rec);
    match bound {
        Layout::Text(e) => assert_eq!(e.item, "MIT"),
        _ => panic!("expected a text leaf"),
    }
}

#[test]
fn instantiate_ref_missing_collapses() {
    let rec = record(&[]);
    let tree = Layout::new_ref(text_element("Missing", Width::Fixed(100)));
    let bound = tree.instantiate(&rec);
    match bound {
        Layout::Stack(c) => {
            assert_eq!(c.elements.len(), 0);
            assert_eq!(c.width, Width::Fixed(0));
        },
        _ => panic!("expected an empty stack"),
    }
}

#[test]
fn missing_ref_takes_no_space() {
    let dict = load_dict();
    let rec = record(&[]);
    let tree = Layout::new_ref(text_element("Missing", Width::Fixed(100)));
    let bound = tree.instantiate(&rec);
    let doc = DocumentDefinition::new(200, 800);
    let norm = bound.normalize(&doc, &dict).expect("normalize");
    let (depth, boxes) = norm.compute_boxes(0, &dict).expect("compute");
    assert_eq!(boxes.len(), 0);
    assert_eq!(depth, 0);
}

#[test]
fn single_text_box_round_trip() {
    let dict = load_dict();
    let e = text_element("hello", Width::Fixed(50));
    let filled = e.fill_fonts(&dict);
    let tree = Layout::new_text(filled);
    let (depth, boxes) = tree.compute_boxes(0, &dict).expect("compute");
    assert_eq!(boxes.len(), 1);
    assert_eq!(boxes[0].0.top_left.x, 0);
    assert_eq!(boxes[0].0.top_left.y, 0);
    let h = dict.height_of(&FontRef::default());
    assert_eq!(depth, h);
    assert_eq!(boxes[0].0.bottom_right.y, h);
}

#[test]
fn school_scenario_produces_one_box() {
    let dict = load_dict();
    let rec = record(&[("School", "MIT")]);
    let tree = Layout::new_ref(text_element("School", Width::Fixed(100)));
    let bound = tree.instantiate(&rec);
    let doc = DocumentDefinition::new(200, 800);
    let norm = bound.normalize(&doc, &dict).expect("normalize");
    let (depth, boxes) = norm.compute_boxes(0, &dict).expect("compute");
    assert_eq!(boxes.len(), 1);
    let f = FontRef::default();
    let w = dict.width_of(&f, "MIT");
    let h = dict.height_of(&f);
    assert_eq!(boxes[0].0.top_left.x, 0);
    assert_eq!(boxes[0].0.top_left.y, 0);
    assert_eq!(boxes[0].0.bottom_right.x, w);
    assert_eq!(boxes[0].0.bottom_right.y, h);
    assert_eq!(boxes[0].1.item, "MIT");
    assert_eq!(depth, h);
}

#[test]
fn frozen_row_overflow_is_reported() {
    let dict = load_dict();
    let row = Layout::new_frozen_row(
        Container::empty_container()
            .with_elements(vec![
                Layout::new_text(text_element("a", Width::Fixed(60))),
                Layout::new_text(text_element("b", Width::Fixed(60))),
            ])
            .with_width(Width::Fixed(100)),
    );
    let doc = DocumentDefinition::new(200, 800);
    let r = row.normalize(&doc, &dict);
    match r {
        Err(LayoutError::FrozenRowOverflow) => {},
        _ => panic!("expected a frozen row overflow"),
    }
}

#[test]
fn frozen_row_that_fits_becomes_flex_row() {
    let dict = load_dict();
    let row = Layout::new_frozen_row(
        Container::empty_container()
            .with_elements(vec![
                Layout::new_text(text_element("a", Width::Fixed(30))),
                Layout::new_text(text_element("b", Width::Fixed(30))),
            ])
            .with_width(Width::Fixed(100)),
    );
    let doc = DocumentDefinition::new(200, 800);
    let norm = row.normalize(&doc, &dict).expect("normalize");
    assert!(norm.frozen_free());
}

#[test]
fn justified_row_spreads_children() {
    let dict = load_dict();
    let e1 = text_element("a", Width::Fixed(10)).fill_fonts(&dict);
    let e2 = text_element("b", Width::Fixed(10)).fill_fonts(&dict);
    let row = Layout::new_flex_row(
        Container::empty_container()
            .with_elements(vec![Layout::new_text(e1), Layout::new_text(e2)])
            .with_width(Width::Fixed(50))
            .with_alignment(Alignment::Justified),
    );
    let (_, boxes) = row.compute_boxes(0, &dict).expect("compute");
    assert_eq!(boxes.len(), 2);
    assert_eq!(boxes[0].0.top_left.x, 0);
    // leftover space is 50 - 20 = 30, spread as one inter-child gap
    assert_eq!(boxes[1].0.top_left.x, 40);
}

#[test]
fn centered_row_shifts_children() {
    let dict = load_dict();
    let e1 = text_element("a", Width::Fixed(10)).fill_fonts(&dict);
    let row = Layout::new_flex_row(
        Container::empty_container()
            .with_elements(vec![Layout::new_text(e1)])
            .with_width(Width::Fixed(50))
            .with_alignment(Alignment::Center),
    );
    let (_, boxes) = row.compute_boxes(0, &dict).expect("compute");
    assert_eq!(boxes.len(), 1);
    assert_eq!(boxes[0].0.top_left.x, 20);
}

#[test]
fn bound_width_is_idempotent_on_widths() {
    let tree = Layout::new_stack(
        Container::empty_container()
            .with_elements(vec![
                Layout::new_text(text_element("a", Width::Fixed(120))),
                Layout::new_text(text_element("b", Width::Fill)),
            ])
            .with_width(Width::Fill),
    );
    let once = tree.bound_width(100);
    let twice = once.bound_width(100);
    assert_eq!(once.width(), twice.width());
    assert_eq!(once.width(), Width::Fixed(100));
    match (&once, &twice) {
        (Layout::Stack(c1), Layout::Stack(c2)) => {
            assert_eq!(c1.elements.len(), c2.elements.len());
            for i in 0..c1.elements.len() {
                assert_eq!(c1.elements[i].width(), c2.elements[i].width());
            }
        },
        _ => panic!("expected stacks"),
    }
}

#[test]
fn broken_lines_fit_their_width() {
    let dict = load_dict();
    let e = text_element("aa bb cc dd ee ff gg", Width::Fixed(40)).fill_fonts(&dict);
    let lines = e.break_lines(&dict);
    assert!(lines.len() > 1);
    let f = FontRef::default();
    for line in &lines {
        let w = dict.width_of(&f, line.item.as_str());
        assert!(w <= 40, "line {:?} measured {}", line.item, w);
    }
}

fn one_section(title: &str, items: usize) -> ResumeSection {
    let mut its = Vec::new();
    for _ in 0..items {
        its.push(record(&[("Title", title)]));
    }
    ResumeSection {
        name: String::from(title),
        data_schema: String::from("General"),
        layout_schema: String::from("General"),
        data: record(&[("Title", title)]),
        items: its,
    }
}

fn general_schemas() -> (Vec<LayoutSchema>, Vec<DataSchema>) {
    let ls = LayoutSchema {
        schema_name: String::from("General"),
        header_layout_schema: Layout::new_ref(text_element("Title", Width::Fixed(100))),
        item_layout_schema: Layout::new_ref(text_element("Title", Width::Fixed(100))),
    };
    let ds = DataSchema {
        name: String::from("General"),
        header_schema: Vec::new(),
        item_schema: Vec::new(),
    };
    (vec![ls], vec![ds])
}

#[test]
fn pagination_breaks_to_a_new_page() {
    let dict = load_dict();
    let f = FontRef::default();
    let h = dict.height_of(&f);
    // Room for exactly two units after the top margin; the third must
    // start a fresh page at the top margin.
    let layout = ResumeLayout {
        column_type: ColumnType::SingleColumn,
        margin: Margin::new(5, 0, 0, 0),
        width: 200,
        height: 5 + 2 * h + 1,
    };
    let (schemas, dschemas) = general_schemas();
    let data = ResumeData {
        layout: String::from("single"),
        sections: vec![one_section("First", 1), one_section("Second", 0)],
    };
    let pages = AnyLayout::render(&schemas, &data, &dschemas, &layout, &dict).expect("render");
    assert_eq!(pages.len(), 2);
    assert_eq!(pages[0].len(), 2);
    assert_eq!(pages[1].len(), 1);
    assert_eq!(pages[1][0].bounding_box.top_left.y, 5);
}

#[test]
fn pagination_counts_every_unit() {
    let dict = load_dict();
    let layout = ResumeLayout {
        column_type: ColumnType::SingleColumn,
        margin: Margin::new(5, 5, 10, 10),
        width: 300,
        height: 800,
    };
    let (schemas, dschemas) = general_schemas();
    let data = ResumeData {
        layout: String::from("single"),
        sections: vec![one_section("First", 2), one_section("Second", 3)],
    };
    let pages = AnyLayout::render(&schemas, &data, &dschemas, &layout, &dict).expect("render");
    let total: usize = pages.iter().map(|p| p.len()).sum();
    assert_eq!(total, 7);
}

#[test]
fn pagination_rejects_unknown_schema() {
    let dict = load_dict();
    let layout = ResumeLayout {
        column_type: ColumnType::SingleColumn,
        margin: Margin::new(5, 5, 10, 10),
        width: 300,
        height: 800,
    };
    let (schemas, dschemas) = general_schemas();
    let mut section = one_section("First", 0);
    section.layout_schema = String::from("NoSuch");
    let data = ResumeData { layout: String::from("single"), sections: vec![section] };
    let r = AnyLayout::render(&schemas, &data, &dschemas, &layout, &dict);
    match r {
        Err(LayoutError::SchemaNotFound(name)) => assert_eq!(name, "NoSuch"),
        _ => panic!("expected a missing schema"),
    }
}

#[test]
fn ascii_layout_schema_test_compute_blueprint() {
    // A whole-pipeline smoke test: bind, normalize and lay out a small
    // stack, and check the boxes stay inside the document width.
    let dict = load_dict();
    let rec = record(&[("School", "MIT"), ("Degree", "BSc")]);
    let tree = Layout::new_stack(Container::empty_container().with_elements(vec![
        Layout::new_ref(text_element("School", Width::Fixed(100))),
        Layout::new_ref(text_element("Degree", Width::Fill)),
    ]));
    let doc = DocumentDefinition::new(120, 800);
    let norm = tree.instantiate(&rec).normalize(&doc, &dict).expect("normalize");
    let (depth, boxes) = norm.compute_boxes(0, &dict).expect("compute");
    assert_eq!(boxes.len(), 2);
    assert!(depth > 0);
    for (b, _) in &boxes {
        assert!(b.bottom_right.x <= 120 + 120);
    }
}

#[test]
fn pdf_layout_schema_test_compute_blueprint() {
    // The stacked leaves advance the vertical cursor leaf by leaf.
    let dict = load_dict();
    let f = FontRef::default();
    let h = dict.height_of(&f);
    let e1 = text_element("one", Width::Fixed(50)).fill_fonts(&dict);
    let e2 = text_element("two", Width::Fixed(50)).fill_fonts(&dict);
    let tree = Layout::new_stack(
        Container::empty_container()
            .with_elements(vec![Layout::new_text(e1), Layout::new_text(e2)])
            .with_width(Width::Fixed(50)),
    );
    let (depth, boxes) = tree.compute_boxes(10, &dict).expect("compute");
    assert_eq!(boxes.len(), 2);
    assert_eq!(boxes[0].0.top_left.y, 10);
    assert_eq!(boxes[1].0.top_left.y, 10 + h);
    assert_eq!(depth, 10 + 2 * h);
}

#[test]
fn over_wide_first_child_makes_no_empty_row() {
    let dict = load_dict();
    let e1 = text_element("wide", Width::Fixed(80)).fill_fonts(&dict);
    let e2 = text_element("ok", Width::Fixed(10)).fill_fonts(&dict);
    let row = Container::empty_container()
        .with_elements(vec![Layout::new_text(e1), Layout::new_text(e2)])
        .with_width(Width::Fixed(50));
    let rows = row.break_lines(&dict).expect("break");
    assert_eq!(rows.len(), 2);
    for r in &rows {
        assert!(r.elements.len() > 0);
    }
    assert_eq!(rows[0].elements.len(), 1);
    assert_eq!(rows[0].elements[0].width(), Width::Fixed(80));
    assert_eq!(rows[1].elements[0].width(), Width::Fixed(10));
}

#[test]
fn test_break_lines() {
    let dict = load_dict();
    let element = text_element("hello world", Width::Fixed(100));
    let element = element.fill_fonts(&dict);
    let lines = element.break_lines(&dict);
    assert_eq!(lines.len(), 1);
    assert_eq!(lines[0].item, "hello world");

    let element = text_element("hello world", Width::Fixed(22));
    let element = element.fill_fonts(&dict);
    let lines = element.break_lines(&dict);
    assert_eq!(lines.len(), 2);
    assert_eq!(lines[0].item, "hello");
    assert_eq!(lines[1].item, "world");
}
