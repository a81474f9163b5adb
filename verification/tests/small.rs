use roster::account::build_user;
use roster::convert::{read_i32, write_i32, Circle, EvenNumber, Number, NumberError};
use roster::points::{MultiTypePoint, Point};
use roster::shapes::{area, Rectangle};
use roster::strings::{
    ascii_capitalize, calculate_length, calculate_length_ref, change, get_first, gives_ownership,
    no_dangle, takes_and_gives_back,
};

#[test]
fn rectangle_area() {
    let rect = Rectangle { width: 60, height: 50 };
    assert_eq!(rect.area(), 3000);
    assert_eq!(area(&rect), 3000);
    assert_eq!(Rectangle { width: 0, height: 9 }.area(), 0);
    assert_eq!(Rectangle { width: 65535, height: 65537 }.area(), u32::MAX);
}

#[test]
fn rectangle_width() {
    assert!(Rectangle { width: 1, height: 0 }.width());
    assert!(!Rectangle { width: 0, height: 5 }.width());
}

#[test]
fn rectangle_can_hold() {
    let rect1 = Rectangle { width: 60, height: 50 };
    let rect2 = Rectangle { width: 10, height: 40 };
    let rect3 = Rectangle { width: 60, height: 45 };
    assert!(rect1.can_hold(&rect2));
    assert!(!rect1.can_hold(&rect3));
    assert!(!rect2.can_hold(&rect1));
    assert!(!rect1.can_hold(&rect1));
}

#[test]
fn rectangle_square() {
    let sq = Rectangle::square(3);
    assert_eq!(sq.width, 3);
    assert_eq!(sq.height, 3);
    assert_eq!(sq.area(), 9);
}

#[test]
fn point_coordinates() {
    let p = Point { x: 5, y: 10 };
    assert_eq!(*p.x(), 5);
    let q = Point { x: "a".to_string(), y: "b".to_string() };
    assert_eq!(q.x(), "a");
}

#[test]
fn points_mixed() {
    let first = MultiTypePoint { x: 5, y: "four" };
    let second = MultiTypePoint { x: 'c', y: 9u8 };
    let mixed = first.mixup(second);
    assert_eq!(mixed.x, 5);
    assert_eq!(mixed.y, 9u8);
}

#[test]
fn a_new_user() {
    let user = build_user("someone@example.com".to_string(), "someusername123".to_string());
    assert!(user.active);
    assert_eq!(user.username, "someusername123");
    assert_eq!(user.email, "someone@example.com");
    assert_eq!(user.sign_in_count, 1);
}

#[test]
fn numbers_converted() {
    assert_eq!(Number::from(30).value, 30);
    assert_eq!(Number::from(i32::MIN).value, i32::MIN);
}

#[test]
fn even_numbers_only() {
    assert_eq!(EvenNumber::try_from(8), Ok(EvenNumber(8)));
    assert_eq!(EvenNumber::try_from(5), Err(()));
    assert_eq!(EvenNumber::try_from(0), Ok(EvenNumber(0)));
    assert_eq!(EvenNumber::try_from(-4), Ok(EvenNumber(-4)));
    assert_eq!(EvenNumber::try_from(-3), Err(()));
    assert_eq!(EvenNumber::try_from(i32::MIN), Ok(EvenNumber(i32::MIN)));
    assert_eq!(EvenNumber::try_from(i32::MAX), Err(()));
}

#[test]
fn numbers_converted_by_into() {
    let number: Number = 5.into();
    assert_eq!(number.value, 5);
    let even: Result<EvenNumber, ()> = 8i32.try_into();
    assert_eq!(even, Ok(EvenNumber(8)));
    let odd: Result<EvenNumber, ()> = 5i32.try_into();
    assert_eq!(odd, Err(()));
}

#[test]
fn a_circle_in_words() {
    assert_eq!(Circle { radius: 6 }.to_text(), "Circle of radius 6");
    assert_eq!(Circle { radius: 0 }.to_text(), "Circle of radius 0");
    assert_eq!(Circle { radius: -12 }.to_text(), "Circle of radius -12");
    assert_eq!(Circle { radius: i32::MIN }.to_text(), "Circle of radius -2147483648");
}

#[test]
fn a_circle_from_text() {
    assert_eq!(Circle::from_str("    3 ").map(|c| c.radius), Ok(3));
    assert_eq!(Circle::from_str("6").map(|c| c.radius), Ok(6));
    assert_eq!(Circle::from_str("+6").map(|c| c.radius), Ok(6));
    assert_eq!(Circle::from_str("-6\n").map(|c| c.radius), Ok(-6));
    assert_eq!(Circle::from_str("007").map(|c| c.radius), Ok(7));
    assert_eq!(Circle::from_str("-0").map(|c| c.radius), Ok(0));
    assert_eq!(Circle::from_str("2147483647").map(|c| c.radius), Ok(i32::MAX));
    assert_eq!(Circle::from_str("-2147483648").map(|c| c.radius), Ok(i32::MIN));
}

#[test]
fn a_text_that_is_no_circle() {
    assert_eq!(Circle::from_str("").map(|c| c.radius), Err(NumberError::NotANumber));
    assert_eq!(Circle::from_str("   ").map(|c| c.radius), Err(NumberError::NotANumber));
    assert_eq!(Circle::from_str("+").map(|c| c.radius), Err(NumberError::NotANumber));
    assert_eq!(Circle::from_str("-").map(|c| c.radius), Err(NumberError::NotANumber));
    assert_eq!(Circle::from_str("six").map(|c| c.radius), Err(NumberError::NotANumber));
    assert_eq!(Circle::from_str("1 2").map(|c| c.radius), Err(NumberError::NotANumber));
    assert_eq!(Circle::from_str("+-3").map(|c| c.radius), Err(NumberError::NotANumber));
    assert_eq!(Circle::from_str("3.0").map(|c| c.radius), Err(NumberError::NotANumber));
    assert_eq!(Circle::from_str("\u{663}").map(|c| c.radius), Err(NumberError::NotANumber));
    assert_eq!(Circle::from_str("99999999999999999999x").map(|c| c.radius), Err(NumberError::NotANumber));
}

#[test]
fn a_radius_that_is_out_of_range() {
    assert_eq!(Circle::from_str("2147483648").map(|c| c.radius), Err(NumberError::OutOfRange));
    assert_eq!(Circle::from_str("-2147483649").map(|c| c.radius), Err(NumberError::OutOfRange));
    assert_eq!(Circle::from_str("99999999999999999999999999").map(|c| c.radius), Err(NumberError::OutOfRange));
    assert_eq!(Circle::from_str("-99999999999999999999999999").map(|c| c.radius), Err(NumberError::OutOfRange));
    assert_eq!(Circle::from_str("0000000000000000000000000001").map(|c| c.radius), Ok(1));
}

#[test]
fn numbers_are_written_as_the_standard_library_writes_them() {
    let samples = [0, 1, -1, 9, 10, 11, 99, 100, 101, -10, -99, -100, 12345, -67890, i32::MAX, i32::MIN, i32::MAX - 1, i32::MIN + 1, 1000000000, -1000000000];
    for n in samples {
        assert_eq!(write_i32(n), n.to_string());
    }
}

#[test]
fn numbers_are_read_as_the_standard_library_reads_them() {
    let samples = ["", "0", "-0", "+0", "5", "+5", "-5", "++5", "--5", "5-", "12a", "a12", " 5", "5 ", "2147483647", "2147483648", "-2147483648", "-2147483649", "4294967296", "00000000000", "-", "+", "1_000", "0x10", "\u{ff11}"];
    for s in samples {
        let v: Vec<char> = s.chars().collect();
        assert_eq!(read_i32(&v, 0, v.len()).ok(), s.parse::<i32>().ok(), "{:?}", s);
    }
}

#[test]
fn a_written_number_is_read_back() {
    for n in [0, 7, -7, 42, -2147483648, 2147483647, 1000, -1000] {
        let v: Vec<char> = write_i32(n).chars().collect();
        assert_eq!(read_i32(&v, 0, v.len()), Ok(n));
    }
}

#[test]
fn a_part_of_a_text_is_read() {
    let v: Vec<char> = "ab-12cd".chars().collect();
    assert_eq!(read_i32(&v, 2, 5), Ok(-12));
    assert_eq!(read_i32(&v, 3, 5), Ok(12));
    assert_eq!(read_i32(&v, 2, 3), Err(NumberError::NotANumber));
    assert_eq!(read_i32(&v, 4, 4), Err(NumberError::NotANumber));
    assert_eq!(read_i32(&v, 1, 5), Err(NumberError::NotANumber));
}

#[test]
fn strings_handed_out() {
    assert_eq!(gives_ownership(), "yours");
    assert_eq!(no_dangle(), "hello");
    assert_eq!(takes_and_gives_back("mine".to_string()), "mine");
}

#[test]
fn lengths_are_in_bytes() {
    assert_eq!(calculate_length("hello".to_string()), ("hello".to_string(), 5));
    assert_eq!(calculate_length_ref(&"hello".to_string()), 5);
    assert_eq!(calculate_length_ref(&String::new()), 0);
    assert_eq!(calculate_length_ref(&"\u{417}\u{434}\u{440}\u{430}".to_string()), 8);
    assert_eq!(calculate_length("\u{1f63b}".to_string()), ("\u{1f63b}".to_string(), 4));
}

#[test]
fn change_appends() {
    let mut s = "hello".to_string();
    change(&mut s);
    assert_eq!(s, "hello, world");
    change(&mut s);
    assert_eq!(s, "hello, world, world");
}

#[test]
fn first_of_a_list() {
    let strs = vec!["A".to_string(), "B".to_string()];
    assert_eq!(get_first(&strs), "A");
}

#[test]
fn capitalizing_the_first_character() {
    let mut v = vec!['a', 'b', 'c'];
    assert!(ascii_capitalize(&mut v));
    assert_eq!(v, vec!['A', 'b', 'c']);
    assert!(!ascii_capitalize(&mut v));
    assert_eq!(v, vec!['A', 'b', 'c']);
    let mut w = vec!['z'];
    assert!(ascii_capitalize(&mut w));
    assert_eq!(w, vec!['Z']);
    let mut x = vec!['\u{e9}', '1'];
    assert!(!ascii_capitalize(&mut x));
    assert_eq!(x, vec!['\u{e9}', '1']);
    let mut y = vec!['{'];
    assert!(!ascii_capitalize(&mut y));
    assert_eq!(y, vec!['{']);
}
