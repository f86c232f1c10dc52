use backend::color::Rgb;
use backend::physical_layout::{
    CursorMutation, LayoutEntry, ParseError, PhysicalLayout, RowItem,
};

#[test]
fn hex_color_parse_exact() {
    assert_eq!(Rgb::parse("112233"), Some(Rgb { r: 0x11, g: 0x22, b: 0x33 }));
    assert_eq!(Rgb::parse("ff00aa"), Some(Rgb { r: 255, g: 0, b: 170 }));
    assert_eq!(Rgb::parse("FF00AA"), Some(Rgb { r: 255, g: 0, b: 170 }));
    assert_eq!(Rgb::parse("000000"), Some(Rgb { r: 0, g: 0, b: 0 }));
}

#[test]
fn hex_color_parse_rejects_malformed() {
    assert_eq!(Rgb::parse("12345"), None);
    assert_eq!(Rgb::parse("1234567"), None);
    assert_eq!(Rgb::parse("gg0000"), None);
    assert_eq!(Rgb::parse(""), None);
}

#[test]
fn layout_parse_two_keys() {
    let layout =
        PhysicalLayout::from_str("[{\"name\":\"X\",\"author\":\"Y\"},[\"ESC\",{\"x\":0.5},\"F1\"]]")
            .unwrap();
    assert_eq!(layout.meta.name, "X");
    assert_eq!(layout.meta.author, "Y");
    assert_eq!(layout.keys.len(), 2);
    let k0 = &layout.keys[0];
    assert_eq!(k0.physical_name, "ESC");
    assert_eq!(k0.logical, (0, 0));
    assert_eq!(k0.physical.x, 0);
    assert_eq!(k0.physical.y, 0);
    assert_eq!(k0.physical.w, 1000);
    assert_eq!(k0.physical.h, 1000);
    let k1 = &layout.keys[1];
    assert_eq!(k1.physical_name, "F1");
    assert_eq!(k1.logical, (0, 1));
    assert_eq!(k1.physical.x, 1500);
    assert_eq!(k1.physical.y, 0);
    assert_eq!(k1.physical.w, 1000);
    assert_eq!(k1.physical.h, 1000);
}

#[test]
fn layout_parse_width_reset() {
    let layout =
        PhysicalLayout::from_str("[{\"name\":\"\",\"author\":\"\"},[{\"w\":2},\"TAB\",\"Q\"]]")
            .unwrap();
    assert_eq!(layout.keys.len(), 2);
    let tab = &layout.keys[0];
    assert_eq!(tab.physical_name, "TAB");
    assert_eq!(tab.physical.w, 2000);
    assert_eq!(tab.physical.x, 0);
    let q = &layout.keys[1];
    assert_eq!(q.physical_name, "Q");
    assert_eq!(q.physical.w, 1000);
    assert_eq!(q.physical.x, 2000);
}

#[test]
fn layout_parse_key_color() {
    let layout = PhysicalLayout::from_str(
        "[{\"name\":\"\",\"author\":\"\"},[{\"c\":\"#112233\"},\"A\"]]",
    )
    .unwrap();
    assert_eq!(layout.keys.len(), 1);
    assert_eq!(layout.keys[0].background_color, Rgb { r: 0x11, g: 0x22, b: 0x33 });
}

#[test]
fn layout_parse_default_color() {
    let layout = PhysicalLayout::from_str("[{\"name\":\"\",\"author\":\"\"},[\"A\"]]").unwrap();
    assert_eq!(layout.keys[0].background_color, Rgb { r: 0xcc, g: 0xcc, b: 0xcc });
}

#[test]
fn layout_parse_missing_meta_rejected() {
    assert_eq!(PhysicalLayout::from_str("[[\"A\"]]").unwrap_err(), ParseError::NoMeta);
}

#[test]
fn layout_parse_rows_advance_downward() {
    let layout =
        PhysicalLayout::from_str("[{\"name\":\"n\",\"author\":\"a\"},[\"A\"],[\"B\"]]").unwrap();
    assert_eq!(layout.keys.len(), 2);
    assert_eq!(layout.keys[0].logical, (0, 0));
    assert_eq!(layout.keys[0].physical.y, 0);
    assert_eq!(layout.keys[1].logical, (1, 0));
    assert_eq!(layout.keys[1].physical.y, -1000);
}

#[test]
fn layout_parse_y_mutation_decreases() {
    let layout =
        PhysicalLayout::from_str("[{\"name\":\"\",\"author\":\"\"},[{\"y\":1},\"A\"]]").unwrap();
    assert_eq!(layout.keys[0].physical.y, -1000);
}

#[test]
fn layout_parse_size_survives_row_boundary() {
    let layout =
        PhysicalLayout::from_str("[{\"name\":\"\",\"author\":\"\"},[{\"w\":2}],[\"Q\"]]").unwrap();
    assert_eq!(layout.keys.len(), 1);
    assert_eq!(layout.keys[0].physical.w, 2000);
}

#[test]
fn layout_parse_meta_after_rows_accepted() {
    let layout =
        PhysicalLayout::from_str("[[\"A\"],{\"name\":\"late\",\"author\":\"a\"}]").unwrap();
    assert_eq!(layout.meta.name, "late");
    assert_eq!(layout.keys.len(), 1);
}

#[test]
fn layout_parse_unknown_member_ignored() {
    let layout = PhysicalLayout::from_str(
        "[{\"name\":\"n\",\"author\":\"a\",\"extra\":3},[{\"w\":2,\"junk\":\"zz\"},\"A\"]]",
    )
    .unwrap();
    assert_eq!(layout.keys[0].physical.w, 2000);
}

#[test]
fn layout_parse_not_ascii_rejected() {
    assert_eq!(
        PhysicalLayout::from_str("[{\"name\":\"\u{e9}\",\"author\":\"\"}]").unwrap_err(),
        ParseError::NotAscii
    );
}

#[test]
fn layout_parse_syntax_errors() {
    assert_eq!(PhysicalLayout::from_str("[").unwrap_err(), ParseError::Syntax);
    assert_eq!(PhysicalLayout::from_str("{}").unwrap_err(), ParseError::Syntax);
    assert_eq!(PhysicalLayout::from_str("[3]").unwrap_err(), ParseError::Syntax);
    assert_eq!(
        PhysicalLayout::from_str("[{\"name\":\"n\"},[\"A\"]]").unwrap_err(),
        ParseError::Syntax
    );
}

#[test]
fn layout_parse_bad_color_rejected() {
    assert_eq!(
        PhysicalLayout::from_str("[{\"name\":\"\",\"author\":\"\"},[{\"c\":\"#xyzxyz\"},\"A\"]]")
            .unwrap_err(),
        ParseError::BadColor
    );
    assert_eq!(
        PhysicalLayout::from_str("[{\"name\":\"\",\"author\":\"\"},[{\"c\":\"112233\"},\"A\"]]")
            .unwrap_err(),
        ParseError::BadColor
    );
}

#[test]
fn layout_parse_number_range_rejected() {
    assert_eq!(
        PhysicalLayout::from_str("[{\"name\":\"\",\"author\":\"\"},[{\"x\":1000000},\"A\"]]")
            .unwrap_err(),
        ParseError::NumberRange
    );
    assert_eq!(
        PhysicalLayout::from_str("[{\"name\":\"\",\"author\":\"\"},[{\"x\":0.1234},\"A\"]]")
            .unwrap_err(),
        ParseError::NumberRange
    );
}

#[test]
fn from_entries_exact_cursor() {
    let entries = vec![
        LayoutEntry::Meta { name: "n".to_owned(), author: "a".to_owned() },
        LayoutEntry::Row(vec![
            RowItem::Mutation(CursorMutation {
                dx: 500,
                dy: 0,
                w: None,
                h: None,
                color: None,
            }),
            RowItem::Key("A".to_owned()),
        ]),
    ];
    let layout = PhysicalLayout::from_entries(&entries).unwrap();
    assert_eq!(layout.keys.len(), 1);
    assert_eq!(layout.keys[0].physical.x, 500);
    assert_eq!(layout.keys[0].physical_name, "A");
}

#[test]
fn from_entries_too_many_rows_rejected() {
    let mut entries = vec![LayoutEntry::Meta { name: String::new(), author: String::new() }];
    for _ in 0..257 {
        entries.push(LayoutEntry::Row(Vec::new()));
    }
    assert_eq!(PhysicalLayout::from_entries(&entries).unwrap_err(), ParseError::TooLarge);
}

#[test]
fn from_entries_mutation_out_of_range_rejected() {
    let entries = vec![
        LayoutEntry::Meta { name: String::new(), author: String::new() },
        LayoutEntry::Row(vec![RowItem::Mutation(CursorMutation {
            dx: 2_000_000_000,
            dy: 0,
            w: None,
            h: None,
            color: None,
        })]),
    ];
    assert_eq!(PhysicalLayout::from_entries(&entries).unwrap_err(), ParseError::TooLarge);
}
