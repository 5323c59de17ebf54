//! Tests of the value types: geometry, widths, fonts, records, schemas and
//! the plain-text templates.

use cvlayout::data_schema::{DataSchema, DocumentDataType, Field};
use cvlayout::error::LayoutError;
use cvlayout::font::{FontRef, FontStyle, FontWeight};
use cvlayout::margin::Margin;
use cvlayout::point::Point;
use cvlayout::resume_data::{ItemContent, ItemRecord, ResumeData, ResumeSection};
use cvlayout::resume_layout::{ColumnType, ResumeLayout};
use cvlayout::spatial_box::SpatialBox;
use cvlayout::text_layout_schema::{fill_template, replace_text, TextLayoutSchema};
use cvlayout::width::Width;

#[test]
fn point_moves() {
    let p = Point::new(10, 20);
    assert_eq!(p.move_x_by(5), Point::new(15, 20));
    assert_eq!(p.move_x_by(-5), Point::new(5, 20));
    assert_eq!(p.move_y_by(7), Point::new(10, 27));
    assert_eq!(p.move_x_to(1), Point::new(1, 20));
    assert_eq!(p.move_y_to(2), Point::new(10, 2));
}

#[test]
fn spatial_box_measures() {
    let b = SpatialBox::new(Point::new(2, 3), Point::new(5, 7));
    assert_eq!(b.width(), 4);
    assert_eq!(b.height(), 5);
    let inner = b.inner_box();
    assert_eq!(inner.top_left, Point::new(3, 4));
    assert_eq!(inner.bottom_right, Point::new(4, 6));
    let moved = b.move_x_by(3).move_y_by(-1);
    assert_eq!(moved.top_left, Point::new(5, 2));
    assert_eq!(moved.bottom_right, Point::new(8, 6));
}

#[test]
fn spatial_box_frame_and_inner_points() {
    let b = SpatialBox::new(Point::new(0, 0), Point::new(2, 3));
    let frame = b.frame_points();
    assert_eq!(frame.len(), 2 * 3 + 2 * 4);
    assert_eq!(frame[0], Point::new(0, 0));
    assert_eq!(frame[1], Point::new(0, 3));
    let inner = b.inner_points();
    assert_eq!(inner.len(), 2);
    assert_eq!(inner[0], Point::new(1, 1));
    assert_eq!(inner[1], Point::new(1, 2));
}

#[test]
fn margin_builders() {
    let m = Margin::new(1, 2, 3, 4);
    assert_eq!(m.with_top(9).top, 9);
    assert_eq!(m.with_bottom(9).bottom, 9);
    assert_eq!(m.with_left(9).left, 9);
    assert_eq!(m.with_right(9).right, 9);
    assert_eq!(Margin::default(), Margin::new(0, 0, 0, 0));
}

#[test]
fn width_scales_percentages() {
    assert_eq!(Width::Percentage(50).scale(200), Width::Fixed(100));
    assert_eq!(Width::Percentage(0).scale(200), Width::Fixed(0));
    assert_eq!(Width::Percentage(100).scale(200), Width::Fixed(200));
    assert_eq!(Width::Fixed(70).scale(200), Width::Fixed(70));
    assert_eq!(Width::Fill.scale(200), Width::Fill);
    assert_eq!(Width::default(), Width::Fill);
    assert!(Width::Fixed(1).is_fixed());
    assert!(!Width::Fill.is_fixed());
    assert_eq!(Width::Fixed(7).get_fixed(), Some(7));
    assert_eq!(Width::Fill.get_fixed(), None);
}

#[test]
fn font_full_names() {
    let f = FontRef::default();
    assert_eq!(f.full_name(), "Arial-Medium");
    let mut g = FontRef::default();
    g.name = String::from("Exo");
    g.weight = FontWeight::Bold;
    g.style = FontStyle::Italic;
    assert_eq!(g.full_name(), "Exo-BoldItalic");
    assert_eq!(FontRef::default_name(), "Arial");
    assert_eq!(FontRef::default_size(), 12);
}

#[test]
fn record_lookup_and_rendering() {
    let mut r = ItemRecord::new();
    r.push(String::from("Name"), ItemContent::Text(String::from("Ada")));
    r.push(
        String::from("Skills"),
        ItemContent::List(vec![String::from("a"), String::from("b"), String::from("c")]),
    );
    r.push(
        String::from("Site"),
        ItemContent::Link { url: String::from("https://example.com"), text: String::from("home") },
    );
    r.push(String::from("None"), ItemContent::Absent);
    assert_eq!(r.get("Name").unwrap().as_text(), "Ada");
    assert_eq!(r.get("Skills").unwrap().as_text(), "a, b, c");
    assert_eq!(r.get("Site").unwrap().as_text(), "home");
    assert_eq!(r.get("None").unwrap().as_text(), "");
    assert!(r.get("Absent").is_none());
}

#[test]
fn data_type_parsing() {
    let t = DocumentDataType::from_str("String").unwrap();
    assert!(matches!(&t, DocumentDataType::Type(s) if s == "String"));
    assert_eq!(t.to_text(), "String");

    let t = DocumentDataType::from_str("Date | String").unwrap();
    match &t {
        DocumentDataType::Types(ts) => {
            assert_eq!(ts.len(), 2);
            assert!(matches!(&ts[0], DocumentDataType::Type(s) if s == "Date"));
            assert!(matches!(&ts[1], DocumentDataType::Type(s) if s == "String"));
        },
        _ => panic!("expected a union"),
    }
    assert_eq!(t.to_text(), "Date | String");

    let t = DocumentDataType::from_str("List(String)").unwrap();
    match &t {
        DocumentDataType::List(inner) => {
            assert!(matches!(&**inner, DocumentDataType::Type(s) if s == "String"));
        },
        _ => panic!("expected a list"),
    }
    assert_eq!(t.to_text(), "ListString");

    assert!(DocumentDataType::from_str("List").is_err());
}

#[test]
fn replace_text_replaces_all() {
    assert_eq!(replace_text("a{X}b{X}c", "{X}", "1"), "a1b1c");
    assert_eq!(replace_text("nothing", "{X}", "1"), "nothing");
    assert_eq!(replace_text("{X}{X}", "{X}", "yy"), "yyyy");
    assert_eq!(replace_text("abc", "abc", ""), "");
}

#[test]
fn fill_template_substitutes_fields() {
    let fields = vec![
        Field {
            name: String::from("School"),
            data_type: DocumentDataType::from_str("String").unwrap(),
        },
        Field {
            name: String::from("Degree"),
            data_type: DocumentDataType::from_str("String").unwrap(),
        },
    ];
    let mut rec = ItemRecord::new();
    rec.push(String::from("School"), ItemContent::Text(String::from("MIT")));
    let out = fill_template("{School}: {Degree}", &fields, &rec);
    assert_eq!(out, "MIT: ");
}

#[test]
fn text_schema_renders_sections() {
    let schemas = vec![TextLayoutSchema {
        schema_name: String::from("General"),
        header_layout_schema: String::from("= {Title} =\n"),
        item_layout_schema: String::from("- {Title}\n"),
    }];
    let dschemas = vec![DataSchema {
        name: String::from("General"),
        header_schema: vec![Field {
            name: String::from("Title"),
            data_type: DocumentDataType::from_str("String").unwrap(),
        }],
        item_schema: vec![Field {
            name: String::from("Title"),
            data_type: DocumentDataType::from_str("String").unwrap(),
        }],
    }];
    let mut header = ItemRecord::new();
    header.push(String::from("Title"), ItemContent::Text(String::from("Work")));
    let mut item = ItemRecord::new();
    item.push(String::from("Title"), ItemContent::Text(String::from("Job")));
    let data = ResumeData {
        layout: String::from("single"),
        sections: vec![ResumeSection {
            name: String::from("Work"),
            data_schema: String::from("General"),
            layout_schema: String::from("General"),
            data: header,
            items: vec![item],
        }],
    };
    let out = TextLayoutSchema::render_contents(&schemas, &data, &dschemas).expect("render");
    assert_eq!(out, "= Work =\n- Job\n");

    let mut bad = ResumeData { layout: String::from("single"), sections: data.sections };
    bad.sections[0].layout_schema = String::from("NoSuch");
    let r = TextLayoutSchema::render_contents(&schemas, &bad, &dschemas);
    assert!(matches!(r, Err(LayoutError::SchemaNotFound(_))));
}

#[test]
fn resume_layout_column_widths() {
    let single = ResumeLayout {
        column_type: ColumnType::SingleColumn,
        margin: Margin::new(5, 5, 10, 10),
        width: 200,
        height: 800,
    };
    assert_eq!(single.column_width(), 180);
    let double = ResumeLayout {
        column_type: ColumnType::DoubleColumn { vertical_margin: 20 },
        margin: Margin::new(5, 5, 10, 10),
        width: 200,
        height: 800,
    };
    assert_eq!(double.column_width(), 80);
    assert_eq!(double.column_type.vertical_margin(), 20);
    assert_eq!(double.column_type.column_count(), 2);
}

#[test]
fn layout_error_text() {
    assert_eq!(LayoutError::SchemaNotFound(String::from("X")).as_text(), "schema not found");
    assert_eq!(LayoutError::FrozenRowOverflow.as_text(), "frozen row overflow");
    assert_eq!(LayoutError::UnboundedGeometry.as_text(), "unbounded geometry");
}
