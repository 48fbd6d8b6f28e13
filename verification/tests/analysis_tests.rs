use positional_index::analysis::{bytes_to_human_readable, largest_posting_lists};
use positional_index::paragraphs::{keep_paragraphs, paragraphs, trim, ParagraphsError};

#[test]
fn test_bytes_to_human_readable() {
    assert_eq!(bytes_to_human_readable(500), "500.00 B");

    assert_eq!(bytes_to_human_readable(2048), "2.00 KB");

    assert_eq!(bytes_to_human_readable(3_145_728), "3.00 MB");

    assert_eq!(bytes_to_human_readable(3_221_225_472), "3.00 GB");

    assert_eq!(bytes_to_human_readable(1_099_511_627_776), "1.00 TB");
}

fn in_double_precision(bytes: usize) -> String {
    let units = ["B", "KB", "MB", "GB", "TB"];
    let mut size = bytes as f64;
    let mut i = 0;
    while size >= 1024.0 && i < units.len() - 1 {
        size /= 1024.0;
        i += 1;
    }
    format!("{:.2} {}", size, units[i])
}

#[test]
fn readable_sizes_round_to_the_nearest_hundredth() {
    assert_eq!(bytes_to_human_readable(0), "0.00 B");
    assert_eq!(bytes_to_human_readable(1023), "1023.00 B");
    assert_eq!(bytes_to_human_readable(1024), "1.00 KB");
    assert_eq!(bytes_to_human_readable(1536), "1.50 KB");
    assert_eq!(bytes_to_human_readable(1029), "1.00 KB");
    assert_eq!(bytes_to_human_readable(1030), "1.01 KB");
    // Exactly between two hundredths: the even one.
    assert_eq!(bytes_to_human_readable(1152), "1.12 KB");
    assert_eq!(bytes_to_human_readable(1408), "1.38 KB");
    assert_eq!(bytes_to_human_readable(1_048_575), "1024.00 KB");
    assert_eq!(bytes_to_human_readable(1_125_899_906_842_624), "1024.00 TB");
}

#[test]
fn readable_sizes_agree_with_double_precision() {
    let mut samples: Vec<usize> = vec![0, 1, 9, 10, 99, 100, 999, 1000, 1023, 1024, 1025, usize::MAX];
    for shift in 0..64 {
        let p = 1usize << shift;
        for delta in 0..40 {
            samples.push(p.wrapping_add(delta));
            samples.push(p.wrapping_sub(delta));
            samples.push(p.wrapping_add(p / 2).wrapping_add(delta));
            samples.push(p.wrapping_add(p / 2).wrapping_sub(delta));
        }
    }
    let mut x: usize = 0x9e37_79b9_7f4a_7c15;
    for _ in 0..20000 {
        x ^= x << 13;
        x ^= x >> 7;
        x ^= x << 17;
        samples.push(x);
        samples.push(x >> (x % 64));
    }
    for k in 0..4000 {
        samples.push(128 * k);
        samples.push((1 << 17) * k);
        samples.push((1 << 27) * k);
        samples.push((1 << 37) * k);
    }
    for bytes in samples {
        assert_eq!(bytes_to_human_readable(bytes), in_double_precision(bytes), "{}", bytes);
    }
}

#[test]
fn the_largest_posting_lists_come_first() {
    let records = vec![
        ("term1".to_string(), 100),
        ("term3".to_string(), 300),
        ("term2".to_string(), 200),
    ];
    let expected_output = vec![("term3".to_string(), 300), ("term2".to_string(), 200)];
    assert_eq!(largest_posting_lists(records, 2), expected_output);
}

#[test]
fn records_of_equal_size_keep_their_order() {
    let records = vec![
        ("apple".to_string(), 150),
        ("cherry".to_string(), 250),
        ("banana".to_string(), 150),
        ("date".to_string(), 250),
        ("elder".to_string(), 7),
    ];
    let ranked = largest_posting_lists(records.clone(), 10);
    let names: Vec<&str> = ranked.iter().map(|(t, _)| t.as_str()).collect();
    assert_eq!(names, vec!["cherry", "date", "apple", "banana", "elder"]);
    assert_eq!(largest_posting_lists(records.clone(), 1), vec![("cherry".to_string(), 250)]);
    assert!(largest_posting_lists(records, 0).is_empty());
    assert!(largest_posting_lists(Vec::new(), 3).is_empty());
}

#[test]
fn paragraphs_are_the_pieces_between_blank_lines() {
    assert_eq!(paragraphs("").unwrap(), Vec::<String>::new());
    assert_eq!(paragraphs("\n\n \n").unwrap(), Vec::<String>::new());
    assert_eq!(paragraphs("one line\nstill the first").unwrap(), vec!["one line\nstill the first"]);
    assert_eq!(
        paragraphs("  first\n\nsecond one \n \t\n\n\nthird\n").unwrap(),
        vec!["first", "second one", "third"]
    );
}

#[test]
fn trimming_takes_the_white_space_off_both_ends() {
    assert_eq!(trim("  a b \n"), "a b");
    assert_eq!(trim("a"), "a");
    assert_eq!(trim(" \t\n"), "");
    assert_eq!(trim(""), "");
    assert_eq!(trim("\u{2003}x\u{00a0}"), "x");
    let pieces = vec![" a ".to_string(), "  ".to_string(), "b".to_string()];
    assert_eq!(keep_paragraphs(&pieces), vec!["a", "b"]);
    assert_eq!(ParagraphsError::Pattern.message(), "the pattern for blank lines was refused");
}
