use akhoik_ge::mesh::geometry::{threes, twos, with_defaults, Mesh};
use akhoik_ge::mesh::text::{
    classify, classify_all, load_raw_color, load_raw_indices, number_fault, read_unsigned,
    read_whole_numbers, scan_classes, scan_numbers, section_type, split_sections, CharClass,
    MeshSectionType, NumberError, Span,
};

fn chars(text: &str) -> Vec<char> {
    text.chars().collect()
}

fn span(start: usize, end: usize) -> Span {
    Span { start, end }
}

fn whole(text: &str, max: u32) -> Option<u32> {
    read_unsigned(&chars(text), max)
}

fn sections(text: &str) -> Vec<(MeshSectionType, String)> {
    split_sections(text).iter().map(|s| (s.kind, s.data.iter().collect())).collect()
}

#[test]
fn items_are_taken_three_at_a_time() {
    assert_eq!(threes(&[1, 2, 3, 4, 5, 6]), vec![[1, 2, 3], [4, 5, 6]]);
    assert_eq!(threes(&[1, 2, 3, 4, 5]), vec![[1, 2, 3]]);
    assert_eq!(threes(&[1, 2, 3, 4]), vec![[1, 2, 3]]);
    assert_eq!(threes(&[1, 2]), Vec::<[i32; 3]>::new());
    assert_eq!(threes::<u8>(&[]), Vec::<[u8; 3]>::new());
    assert_eq!(threes(&[0.5_f32, 1.5, 2.5]), vec![[0.5, 1.5, 2.5]]);
}

#[test]
fn items_are_taken_two_at_a_time() {
    assert_eq!(twos(&[1, 2, 3, 4]), vec![[1, 2], [3, 4]]);
    assert_eq!(twos(&[1, 2, 3]), vec![[1, 2]]);
    assert_eq!(twos(&[1]), Vec::<[i32; 2]>::new());
    assert_eq!(twos(&[0.25_f32, 0.75]), vec![[0.25, 0.75]]);
}

#[test]
fn a_mesh_keeps_its_vertices_and_indices() {
    let mut mesh: Mesh<&str> = Mesh::with_set_data(vec!["a", "b"], vec![0, 1]);
    assert_eq!(mesh.vertices, vec!["a", "b"]);
    assert_eq!(mesh.indices, vec![0, 1]);
    mesh.add_vertex_data("c");
    mesh.add_index(2);
    let mut more = vec![2, 1, 0, 9];
    mesh.add_indices(&mut more);
    assert_eq!(more, Vec::<u32>::new());
    assert_eq!(mesh.vertices, vec!["a", "b", "c"]);
    assert_eq!(mesh.indices, vec![0, 1, 2, 2, 1, 0, 9]);
    assert_eq!(mesh.to_indices_tri(), vec![[0, 1, 2], [2, 1, 0]]);
    let copy = mesh.clone();
    assert_eq!(copy.indices, mesh.indices);
    let empty: Mesh<u8> = Mesh::with_capacity(4, 6);
    assert_eq!(empty.vertices.len(), 0);
    assert_eq!(empty.indices.len(), 0);
    assert_eq!(empty.to_indices_tri(), Vec::<[u32; 3]>::new());
}

#[test]
fn section_names_are_matched_exactly() {
    assert_eq!(section_type(&chars("Vertices")), MeshSectionType::Vertices);
    assert_eq!(section_type(&chars("Indices")), MeshSectionType::Indices);
    assert_eq!(section_type(&chars("Color")), MeshSectionType::Color);
    assert_eq!(section_type(&chars("TexCoord")), MeshSectionType::TexCoord);
    assert_eq!(section_type(&chars("vertices")), MeshSectionType::Unknown);
    assert_eq!(section_type(&chars("Vertices ")), MeshSectionType::Unknown);
    assert_eq!(section_type(&chars("Vertice")), MeshSectionType::Unknown);
    assert_eq!(section_type(&chars("")), MeshSectionType::Unknown);
    assert_eq!(section_type(&chars("Colour")), MeshSectionType::Unknown);
}

#[test]
fn a_text_is_split_at_its_section_marks() {
    assert_eq!(
        sections(":Vertices\n0.5 0.5 0.0 \n:Indices\n0 1 3 "),
        vec![
            (MeshSectionType::Vertices, "0.5 0.5 0.0 \n".to_string()),
            (MeshSectionType::Indices, "0 1 3 ".to_string()),
        ]
    );
    assert_eq!(sections(""), vec![]);
    assert_eq!(sections("no section here\n1 2 3"), vec![]);
    assert_eq!(sections("junk:Color\n255 0 0 "), vec![(MeshSectionType::Color, "255 0 0 ".to_string())]);
    assert_eq!(sections(":Indices"), vec![]);
    assert_eq!(sections(":Indices\n"), vec![(MeshSectionType::Indices, String::new())]);
}

#[test]
fn sections_of_unknown_name_are_left_out() {
    assert_eq!(
        sections(":Normals\n1 2 3 \n:TexCoord\n0.0 1.0 "),
        vec![(MeshSectionType::TexCoord, "0.0 1.0 ".to_string())]
    );
    assert_eq!(sections(":Indices\n1 \n:Normals\n5 "), vec![(MeshSectionType::Indices, "1 \n".to_string())]);
}

#[test]
fn a_mark_within_a_header_line_ends_the_section_before_once_more() {
    assert_eq!(
        sections(":Indices\n1 :Col:Color\n2 "),
        vec![
            (MeshSectionType::Indices, "1 ".to_string()),
            (MeshSectionType::Indices, String::new()),
            (MeshSectionType::Color, "2 ".to_string()),
        ]
    );
    assert_eq!(
        sections(":Indices\n7 :"),
        vec![(MeshSectionType::Indices, "7 ".to_string()), (MeshSectionType::Indices, String::new())]
    );
}

#[test]
fn numbers_end_at_whitespace() {
    let scan = scan_numbers(MeshSectionType::Indices, &chars("1 22 333 "));
    assert_eq!(scan.spans, vec![span(0, 1), span(2, 4), span(5, 8)]);
    assert_eq!(scan.invalid, None);
    let scan = scan_numbers(MeshSectionType::Indices, &chars("1 22 333"));
    assert_eq!(scan.spans, vec![span(0, 1), span(2, 4)]);
    assert_eq!(scan.invalid, None);
    let scan = scan_numbers(MeshSectionType::Indices, &chars(""));
    assert_eq!(scan.spans, vec![]);
    assert_eq!(scan.invalid, None);
    let scan = scan_numbers(MeshSectionType::Vertices, &chars("-0.5\t1.25\n"));
    assert_eq!(scan.spans, vec![span(0, 4), span(5, 9)]);
}

#[test]
fn whitespace_at_the_start_of_a_number_belongs_to_it() {
    let scan = scan_numbers(MeshSectionType::Indices, &chars("1  2 "));
    assert_eq!(scan.spans, vec![span(0, 1), span(2, 4)]);
    let scan = scan_numbers(MeshSectionType::Indices, &chars(" 1 "));
    assert_eq!(scan.spans, vec![span(0, 2)]);
    let scan = scan_numbers(MeshSectionType::Indices, &chars("   "));
    assert_eq!(scan.spans, vec![span(0, 1)]);
    let scan = scan_numbers(MeshSectionType::Indices, &chars("    "));
    assert_eq!(scan.spans, vec![span(0, 1), span(2, 3)]);
}

#[test]
fn scanning_stops_at_the_first_invalid_character() {
    let scan = scan_numbers(MeshSectionType::Indices, &chars("1 2 x 3 y "));
    assert_eq!(scan.spans, vec![span(0, 1), span(2, 3)]);
    assert_eq!(scan.invalid, Some(4));
    let scan = scan_numbers(MeshSectionType::Indices, &chars("1.5 "));
    assert_eq!(scan.spans, vec![]);
    assert_eq!(scan.invalid, Some(1));
    let scan = scan_numbers(MeshSectionType::TexCoord, &chars("0.5 -1 "));
    assert_eq!(scan.spans, vec![span(0, 3)]);
    assert_eq!(scan.invalid, Some(4));
    let scan = scan_numbers(MeshSectionType::Vertices, &chars("0.5 -1 "));
    assert_eq!(scan.spans, vec![span(0, 3), span(4, 6)]);
    assert_eq!(scan.invalid, None);
    let scan = scan_numbers(MeshSectionType::Color, &chars("-1 +1 "));
    assert_eq!(scan.spans, vec![span(0, 2)]);
    assert_eq!(scan.invalid, Some(3));
    let scan = scan_numbers(MeshSectionType::Unknown, &chars(" 1"));
    assert_eq!(scan.invalid, Some(1));
}

#[test]
fn whitespace_and_numbers_go_by_unicode() {
    let scan = scan_numbers(MeshSectionType::Indices, &chars("1\u{2003}2\u{00a0}"));
    assert_eq!(scan.spans, vec![span(0, 1), span(2, 3)]);
    assert_eq!(scan.invalid, None);
    let scan = scan_numbers(MeshSectionType::Indices, &chars("\u{0663}\u{00bd} "));
    assert_eq!(scan.spans, vec![span(0, 2)]);
    assert_eq!(scan.invalid, None);
    let scan = scan_numbers(MeshSectionType::Indices, &chars("1\u{200b}2 "));
    assert_eq!(scan.invalid, Some(1));
    assert_eq!(
        load_raw_indices(&chars("\u{0663} ")),
        Err(NumberError::InvalidValue { span: span(0, 1) })
    );
}

#[test]
fn whole_numbers_are_read_as_the_standard_library_reads_them() {
    let samples = [
        "0", "7", "42", "007", "+5", "+", "", "-", "-1", "+-1", "++1", "1+", "255", "256", "999",
        "4294967295", "4294967296", "42949672950", "99999999999999999999", "12a", "a12", " 1",
        "1 ", "1_000", "0x10", "\u{0663}", "+0", "+00255", "4294967290", "429496729",
    ];
    for sample in samples {
        assert_eq!(whole(sample, u32::MAX), sample.parse::<u32>().ok(), "{:?}", sample);
        assert_eq!(whole(sample, 255), sample.parse::<u8>().ok().map(u32::from), "{:?}", sample);
    }
    assert_eq!(whole("10", 9), None);
    assert_eq!(whole("9", 9), Some(9));
    assert_eq!(whole("8", 5), None);
    assert_eq!(whole("0", 0), Some(0));
    let data = chars("xx123yy");
    assert_eq!(read_unsigned(&data[2..5], u32::MAX), Some(123));
    assert_eq!(read_unsigned(&data[2..6], u32::MAX), None);
    assert_eq!(read_unsigned(&data[3..3], u32::MAX), None);
}

#[test]
fn indices_are_read_in_order() {
    assert_eq!(load_raw_indices(&chars("0 1 3 1 2 3 ")), Ok(vec![0, 1, 3, 1, 2, 3]));
    assert_eq!(load_raw_indices(&chars("0 1 3\n1 2 3\n")), Ok(vec![0, 1, 3, 1, 2, 3]));
    assert_eq!(load_raw_indices(&chars("0 1 3")), Ok(vec![0, 1]));
    assert_eq!(load_raw_indices(&chars("")), Ok(vec![]));
    assert_eq!(load_raw_indices(&chars("4294967295 ")), Ok(vec![4294967295]));
}

#[test]
fn the_first_fault_in_the_indices_is_the_error() {
    assert_eq!(
        load_raw_indices(&chars("0 1 x ")),
        Err(NumberError::InvalidCharacter { position: 4 })
    );
    assert_eq!(
        load_raw_indices(&chars("4294967296 ")),
        Err(NumberError::InvalidValue { span: span(0, 10) })
    );
    assert_eq!(
        load_raw_indices(&chars("1  2 ")),
        Err(NumberError::InvalidValue { span: span(2, 4) })
    );
    assert_eq!(
        load_raw_indices(&chars("\n1 2 ")),
        Err(NumberError::InvalidValue { span: span(0, 2) })
    );
    assert_eq!(
        load_raw_indices(&chars("1  2 x")),
        Err(NumberError::InvalidValue { span: span(2, 4) })
    );
    assert_eq!(load_raw_indices(&chars("1 -2 ")), Err(NumberError::InvalidCharacter { position: 2 }));
}

#[test]
fn colors_are_read_three_numbers_each() {
    assert_eq!(load_raw_color(&chars("255 0 0 0 128 255 ")), Ok(vec![[255, 0, 0], [0, 128, 255]]));
    assert_eq!(load_raw_color(&chars("255 0 0 7 ")), Ok(vec![[255, 0, 0]]));
    assert_eq!(load_raw_color(&chars("1 2 ")), Ok(vec![]));
    assert_eq!(load_raw_color(&chars("1 2 256 ")), Err(NumberError::InvalidValue { span: span(4, 7) }));
    assert_eq!(load_raw_color(&chars("1 -2 3 ")), Err(NumberError::InvalidValue { span: span(2, 4) }));
    assert_eq!(load_raw_color(&chars("1 2.0 3 ")), Err(NumberError::InvalidValue { span: span(2, 5) }));
    assert_eq!(load_raw_color(&chars("1 2 3 # ")), Err(NumberError::InvalidCharacter { position: 6 }));
}

#[test]
fn whole_numbers_are_held_to_their_limit() {
    assert_eq!(read_whole_numbers(MeshSectionType::Indices, &chars("10 20 "), 20), Ok(vec![10, 20]));
    assert_eq!(
        read_whole_numbers(MeshSectionType::Indices, &chars("10 21 "), 20),
        Err(NumberError::InvalidValue { span: span(3, 5) })
    );
}

#[test]
fn a_number_that_is_none_comes_before_an_invalid_character() {
    let scan = scan_numbers(MeshSectionType::Vertices, &chars("1.0 -- 2.0 x "));
    assert_eq!(scan.spans, vec![span(0, 3), span(4, 6), span(7, 10)]);
    assert_eq!(scan.invalid, Some(11));
    assert_eq!(number_fault(&scan, Some(1)), Some(NumberError::InvalidValue { span: span(4, 6) }));
    assert_eq!(number_fault(&scan, Some(2)), Some(NumberError::InvalidValue { span: span(7, 10) }));
    assert_eq!(number_fault(&scan, None), Some(NumberError::InvalidCharacter { position: 11 }));
    assert_eq!(number_fault(&scan, Some(3)), Some(NumberError::InvalidCharacter { position: 11 }));
    let clean = scan_numbers(MeshSectionType::Vertices, &chars("1.0 2.0 "));
    assert_eq!(number_fault(&clean, None), None);
    assert_eq!(number_fault(&clean, Some(0)), Some(NumberError::InvalidValue { span: span(0, 3) }));
    assert_eq!(number_fault(&clean, Some(9)), None);
}

#[test]
fn items_are_joined_by_rank_with_defaults_where_one_is_missing() {
    assert_eq!(
        with_defaults(&[1, 2, 3], &['a', 'b'], &[0.5_f32], 'z', 0.0),
        vec![(1, 'a', 0.5), (2, 'b', 0.0), (3, 'z', 0.0)]
    );
    assert_eq!(with_defaults(&[1], &['a', 'b'], &[7, 8, 9], 'z', 0), vec![(1, 'a', 7)]);
    assert_eq!(with_defaults(&[1, 2], &[] as &[char], &[] as &[u8], 'z', 0), vec![(1, 'z', 0), (2, 'z', 0)]);
    assert_eq!(with_defaults(&[] as &[u8], &['a'], &[7], 'z', 0), vec![]);
}

#[test]
fn the_whitespace_characters_are_those_of_the_unicode_list() {
    let listed = |c: char| {
        matches!(
            c,
            '\u{9}'..='\u{d}'
                | ' '
                | '\u{85}'
                | '\u{a0}'
                | '\u{1680}'
                | '\u{2000}'..='\u{200a}'
                | '\u{2028}'
                | '\u{2029}'
                | '\u{202f}'
                | '\u{205f}'
                | '\u{3000}'
        )
    };
    let mut count = 0;
    for code in 0..=0x10ffff_u32 {
        let Some(c) = char::from_u32(code) else {
            continue;
        };
        let space = classify(MeshSectionType::Vertices, c) == CharClass::Space;
        assert_eq!(space, listed(c), "U+{:04X}", code);
        if space {
            count += 1;
        }
    }
    assert_eq!(count, 25);
}

#[test]
fn within_ascii_the_numeric_characters_are_the_decimal_digits() {
    for code in 0..=0x7f_u8 {
        let c = char::from(code);
        let class = classify(MeshSectionType::Indices, c);
        if c.is_ascii_digit() {
            assert_eq!(class, CharClass::Number, "{:?}", c);
        } else {
            assert_ne!(class, CharClass::Number, "{:?}", c);
        }
    }
    assert_eq!(classify(MeshSectionType::Indices, '\u{0663}'), CharClass::Number);
    assert_eq!(classify(MeshSectionType::Indices, '\u{00bd}'), CharClass::Number);
    assert_eq!(classify(MeshSectionType::Indices, '\u{00e9}'), CharClass::Other);
}

#[test]
fn characters_are_classed_by_the_kind_of_the_section() {
    assert_eq!(classify(MeshSectionType::Vertices, '-'), CharClass::Number);
    assert_eq!(classify(MeshSectionType::Vertices, '.'), CharClass::Number);
    assert_eq!(classify(MeshSectionType::Color, '-'), CharClass::Number);
    assert_eq!(classify(MeshSectionType::TexCoord, '.'), CharClass::Number);
    assert_eq!(classify(MeshSectionType::TexCoord, '-'), CharClass::Other);
    assert_eq!(classify(MeshSectionType::Indices, '.'), CharClass::Other);
    assert_eq!(classify(MeshSectionType::Indices, '7'), CharClass::Number);
    assert_eq!(classify(MeshSectionType::Unknown, '7'), CharClass::Other);
    assert_eq!(classify(MeshSectionType::Unknown, ' '), CharClass::Space);
    assert_eq!(classify(MeshSectionType::Indices, '\n'), CharClass::Space);
    assert_eq!(classify(MeshSectionType::Indices, '+'), CharClass::Other);
    assert_eq!(
        classify_all(MeshSectionType::Indices, &chars("1 x")),
        vec![CharClass::Number, CharClass::Space, CharClass::Other]
    );
    assert_eq!(classify_all(MeshSectionType::Indices, &chars("")), vec![]);
}

#[test]
fn classes_are_scanned_as_the_characters_are() {
    let (number, space, other) = (CharClass::Number, CharClass::Space, CharClass::Other);
    let scan = scan_classes(&[number, space, number, number, space, number]);
    assert_eq!(scan.spans, vec![span(0, 1), span(2, 4)]);
    assert_eq!(scan.invalid, None);
    let scan = scan_classes(&[number, space, space, number, space]);
    assert_eq!(scan.spans, vec![span(0, 1), span(2, 4)]);
    let scan = scan_classes(&[space, space, space, space]);
    assert_eq!(scan.spans, vec![span(0, 1), span(2, 3)]);
    let scan = scan_classes(&[number, space, other, number, space, other]);
    assert_eq!(scan.spans, vec![span(0, 1)]);
    assert_eq!(scan.invalid, Some(2));
    let scan = scan_classes(&[other]);
    assert_eq!(scan.spans, vec![]);
    assert_eq!(scan.invalid, Some(0));
    let scan = scan_classes(&[]);
    assert_eq!(scan.spans, vec![]);
    assert_eq!(scan.invalid, None);
    for text in ["1 22 333 ", "1  2 x", " 1 ", "-0.5\t1.25\n", "a", ""] {
        for kind in [MeshSectionType::Vertices, MeshSectionType::Indices, MeshSectionType::TexCoord] {
            let direct = scan_numbers(kind, &chars(text));
            let by_class = scan_classes(&classify_all(kind, &chars(text)));
            assert_eq!(direct.spans, by_class.spans);
            assert_eq!(direct.invalid, by_class.invalid);
        }
    }
}
