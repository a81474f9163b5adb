use roster::stats::{find_median, find_mode, largest_char, largest_i32, Median};

fn value(median: Median) -> f64 {
    median.doubled as f64 / 2.0
}

#[test]
fn median_of_an_odd_number_of_items() {
    assert_eq!(value(find_median(&[1, 2, 3, 4, 5])), 3.0);
    assert_eq!(find_median(&[1, 2, 3, 4, 5]), Median { doubled: 6 });
    assert_eq!(value(find_median(&[7])), 7.0);
}

#[test]
fn median_of_an_even_number_of_items() {
    assert_eq!(value(find_median(&[1, 2, 3, 4])), 2.5);
    assert_eq!(find_median(&[1, 2, 3, 4]), Median { doubled: 5 });
    assert_eq!(value(find_median(&[1, 3])), 2.0);
}

#[test]
fn median_of_the_sample_list() {
    let mut list = vec![0, 1, 2, 3, 4, 5, 6, 7, 10, 50, 100, 10000, 42, 11, 11, 11];
    list.sort();
    assert_eq!(value(find_median(&list)), 8.5);
}

#[test]
fn median_does_not_overflow() {
    assert_eq!(find_median(&[i32::MAX, i32::MAX]), Median { doubled: 2 * (i32::MAX as i64) });
    assert_eq!(find_median(&[i32::MIN, i32::MIN]), Median { doubled: 2 * (i32::MIN as i64) });
    assert_eq!(find_median(&[i32::MIN, i32::MAX]), Median { doubled: -1 });
    assert_eq!(value(find_median(&[-3, -2])), -2.5);
}

#[test]
fn median_takes_the_list_as_it_stands() {
    assert_eq!(find_median(&[9, 1, 5]), Median { doubled: 2 });
}

#[test]
fn mode_with_its_count() {
    assert_eq!(find_mode(&[11, 11, 11, 7, 7]), (11, 3));
    assert_eq!(find_mode(&[5]), (5, 1));
    assert_eq!(find_mode(&[7, 7, 11, 11, 11]), (11, 3));
}

#[test]
fn mode_of_the_sample_list() {
    let mut list = vec![0, 1, 2, 3, 4, 5, 6, 7, 10, 50, 100, 10000, 42, 11, 11, 11];
    list.sort();
    assert_eq!(find_mode(&list), (11, 3));
}

#[test]
fn mode_of_several_is_the_smallest() {
    assert_eq!(find_mode(&[3, 1, 2]), (1, 1));
    assert_eq!(find_mode(&[7, 7, 2, 2, 9]), (2, 2));
    assert_eq!(find_mode(&[2, 2, 7, 7, 9]), (2, 2));
    assert_eq!(find_mode(&[0, -5, 0, -5]), (-5, 2));
    assert_eq!(find_mode(&[i32::MAX, i32::MIN]), (i32::MIN, 1));
}

#[test]
fn mode_does_not_need_a_sorted_list() {
    assert_eq!(find_mode(&[4, 9, 4, 1, 9, 4]), (4, 3));
}

#[test]
fn largest_number() {
    assert_eq!(*largest_i32(&[34, 50, 25, 100, 65]), 100);
    assert_eq!(*largest_i32(&[102, 34, 6000, 89, 54, 2, 43, 8]), 6000);
    assert_eq!(*largest_i32(&[-3]), -3);
    assert_eq!(*largest_i32(&[-3, -7, i32::MIN]), -3);
    assert_eq!(*largest_i32(&[1, i32::MAX, 1]), i32::MAX);
}

#[test]
fn largest_number_is_the_first_of_its_equals() {
    let list = [5, 9, 9];
    assert!(std::ptr::eq(largest_i32(&list), &list[1]));
}

#[test]
fn largest_character() {
    assert_eq!(*largest_char(&['y', 'm', 'a', 'q']), 'y');
    assert_eq!(*largest_char(&['a']), 'a');
    assert_eq!(*largest_char(&['z', 'A', '\u{e9}']), '\u{e9}');
    assert_eq!(*largest_char(&['\u{1f63b}', '\u{ffff}']), '\u{1f63b}');
}
