use smart_pointers::animals::{Animal, Dog};
use smart_pointers::blog::{Post, PostState};
use smart_pointers::callables::{add_one, do_twice, returns_closure};
use smart_pointers::guessing::{
    read_guess, respond, secret_number, turn, Reply, HIGHEST, LOWEST,
};
use smart_pointers::outline::{bracketed, outline};
use smart_pointers::rect::{area_v1, area_v2, area_v3, Rectangle};
use smart_pointers::units::{Meters, Millimeters, Point};
use smart_pointers::wrapper::{greeting, greeting_for, Wrapper};

#[test]
fn post_shows_its_text_only_once_published() {
    let mut post = Post::new();
    post.add_text("I ate a salad for lunch today");
    assert_eq!("", post.content());
    post.request_review();
    assert_eq!("", post.content());
    post.approve();
    assert_eq!("", post.content());
    post.approve();
    assert_eq!("I ate a salad for lunch today", post.content());
    assert_eq!(post.state(), PostState::Published);
}

#[test]
fn post_stages_follow_one_another() {
    let mut post = Post::new();
    assert_eq!(post.state(), PostState::Draft);
    post.approve();
    assert_eq!(post.state(), PostState::Draft);
    post.request_review();
    assert_eq!(post.state(), PostState::FirstPendingReview);
    post.request_review();
    assert_eq!(post.state(), PostState::FirstPendingReview);
    post.approve();
    assert_eq!(post.state(), PostState::SecondPendingReview);
    post.request_review();
    assert_eq!(post.state(), PostState::SecondPendingReview);
    post.approve();
    assert_eq!(post.state(), PostState::Published);
    post.approve();
    post.request_review();
    assert_eq!(post.state(), PostState::Published);
}

#[test]
fn rejection_sends_a_review_back_to_draft() {
    assert_eq!(PostState::Draft.reject(), PostState::Draft);
    assert_eq!(PostState::FirstPendingReview.reject(), PostState::Draft);
    assert_eq!(PostState::SecondPendingReview.reject(), PostState::Draft);
    assert_eq!(PostState::Published.reject(), PostState::Published);
    assert_eq!(PostState::Draft.request_review(), PostState::FirstPendingReview);
    assert_eq!(PostState::FirstPendingReview.approve(), PostState::SecondPendingReview);
}

#[test]
fn text_handed_in_replaces_a_draft_and_empties_the_rest() {
    let mut post = Post::new();
    post.add_text("first");
    post.add_text("second");
    post.request_review();
    post.approve();
    post.approve();
    assert_eq!(post.content(), "second");
    post.add_text("too late");
    assert_eq!(post.content(), "");
    assert_eq!(PostState::Draft.add_text("abc"), "abc");
    assert_eq!(PostState::FirstPendingReview.add_text("abc"), "");
    assert_eq!(PostState::SecondPendingReview.add_text("abc"), "");
    assert_eq!(PostState::Published.add_text("abc"), "");
}

#[test]
fn areas_of_a_thirty_by_fifty_rectangle() {
    assert_eq!(area_v1(30, 50), 1500);
    assert_eq!(area_v2((30, 50)), 1500);
    let rect = Rectangle { width: 30, height: 50 };
    assert_eq!(area_v3(&rect), 1500);
    assert_eq!(rect.area(), 1500);
    assert_eq!(area_v1(0, 50), 0);
    assert_eq!(area_v1(65535, 65537), 4294967295);
}

#[test]
fn square_has_equal_sides() {
    let sq = Rectangle::square(3);
    assert_eq!(sq.width, 3);
    assert_eq!(sq.height, 3);
    assert_eq!(sq.area(), 9);
}

#[test]
fn can_hold_needs_both_sides_strictly_larger() {
    let rect1 = Rectangle { width: 30, height: 50 };
    let rect2 = Rectangle { width: 10, height: 40 };
    let rect3 = Rectangle { width: 60, height: 45 };
    assert!(rect1.can_hold(&rect2));
    assert!(!rect1.can_hold(&rect3));
    assert!(!rect2.can_hold(&rect1));
    assert!(!rect1.can_hold(&rect1));
    let same_width = Rectangle { width: 30, height: 10 };
    assert!(!rect1.can_hold(&same_width));
}

#[test]
fn points_add_coordinate_by_coordinate() {
    assert_eq!(Point { x: 1, y: 0 } + Point { x: 2, y: 3 }, Point { x: 3, y: 3 });
    assert_eq!(Point { x: -4, y: 7 } + Point { x: 0, y: 0 }, Point { x: -4, y: 7 });
}

#[test]
fn metres_add_to_millimetres_a_thousandfold() {
    assert_eq!(Millimeters(5) + Meters(2), Millimeters(2005));
    assert_eq!(Millimeters(0) + Meters(0), Millimeters(0));
}

#[test]
fn do_twice_adds_up_two_calls() {
    assert_eq!(add_one(5), 6);
    assert_eq!(do_twice(add_one, 5), 12);
    assert_eq!(returns_closure()(10), 11);
    assert_eq!(do_twice(returns_closure(), -1), 0);
}

#[test]
fn baby_names_differ_by_the_path_that_is_called() {
    assert_eq!(Dog::baby_name(), "Spot");
    assert_eq!(<Dog as Animal>::baby_name(), "puppy");
}

#[test]
fn outline_frames_a_text() {
    let lines = outline("(1, 0)");
    assert_eq!(
        lines,
        vec![
            "**********".to_string(),
            "*        *".to_string(),
            "* (1, 0) *".to_string(),
            "*        *".to_string(),
            "**********".to_string(),
        ]
    );
    assert_eq!(
        outline(""),
        vec!["****", "*  *", "*  *", "*  *", "****"]
    );
}

#[test]
fn outline_is_as_wide_as_the_text_has_bytes() {
    let lines = outline("é");
    assert_eq!(lines[0], "******");
    assert_eq!(lines[1], "*    *");
    assert_eq!(lines[2], "* é *");
}

#[test]
fn bracketed_joins_with_comma_and_space() {
    let w = vec![String::from("hello"), String::from("world")];
    assert_eq!(bracketed(&w), "[hello, world]");
    assert_eq!(bracketed(&vec![String::from("one")]), "[one]");
    assert_eq!(bracketed(&Vec::new()), "[]");
    assert_eq!(
        bracketed(&vec![String::new(), String::new(), String::from("x")]),
        "[, , x]"
    );
}

#[test]
fn wrapper_forwards_to_what_it_wraps() {
    let x = 5;
    let y = Wrapper::wrap(x);
    assert_eq!(5, x);
    assert_eq!(5, *y);
    assert_eq!(y.get(), &5);
    assert_eq!(y.into_inner(), 5);
    let m = Wrapper::wrap(String::from("Rust"));
    assert_eq!(m.len(), 4);
    assert_eq!(greeting(&m), "Hello, Rust!");
    assert_eq!(greeting(&(*m)[..]), "Hello, Rust!");
    assert_eq!(greeting_for(&m), "Hello, Rust!");
    assert_eq!(greeting(""), "Hello, !");
}

#[test]
fn secret_number_lies_between_one_and_a_hundred() {
    assert_eq!((LOWEST, HIGHEST), (1, 100));
    for _ in 0..2000 {
        let n = secret_number();
        assert!((1..=100).contains(&n));
    }
}

#[test]
fn secret_number_is_not_constant() {
    let first = secret_number();
    let mut differs = false;
    for _ in 0..1000 {
        if secret_number() != first {
            differs = true;
        }
    }
    assert!(differs);
}

#[test]
fn guess_is_read_without_the_white_space_around_it() {
    assert_eq!(read_guess("42\n"), Some(42));
    assert_eq!(read_guess("  7 \t\r\n"), Some(7));
    assert_eq!(read_guess("+5"), Some(5));
    assert_eq!(read_guess("4294967295"), Some(4294967295));
    assert_eq!(read_guess("4294967296"), None);
    assert_eq!(read_guess("-1"), None);
    assert_eq!(read_guess("4 2"), None);
    assert_eq!(read_guess("abc\n"), None);
    assert_eq!(read_guess(""), None);
    assert_eq!(read_guess("\n"), None);
    assert_eq!(read_guess("+"), None);
    assert_eq!(read_guess("++5"), None);
    assert_eq!(read_guess("+-5"), None);
    assert_eq!(read_guess("007"), Some(7));
    assert_eq!(read_guess("00000000000000000000000000042"), Some(42));
    assert_eq!(read_guess("1_000"), None);
    assert_eq!(read_guess("12a"), None);
    assert_eq!(read_guess("\u{0663}"), None);
    assert_eq!(read_guess("0"), Some(0));
}

#[test]
fn reply_tells_the_side_of_a_miss() {
    assert_eq!(respond(50, Some(49)), Reply::TooSmall);
    assert_eq!(respond(50, Some(51)), Reply::TooBig);
    assert_eq!(respond(50, Some(50)), Reply::Win);
    assert_eq!(respond(50, None), Reply::NotANumber);
    assert_eq!(respond(1, Some(0)), Reply::TooSmall);
    assert_eq!(respond(100, Some(u32::MAX)), Reply::TooBig);
}

#[test]
fn turn_answers_a_line() {
    assert_eq!(turn(50, "49\n"), Reply::TooSmall);
    assert_eq!(turn(50, " 51\n"), Reply::TooBig);
    assert_eq!(turn(50, "50\n"), Reply::Win);
    assert_eq!(turn(50, "fifty\n"), Reply::NotANumber);
}

#[test]
fn only_a_win_ends_the_game() {
    assert!(Reply::Win.ends_game());
    assert!(!Reply::TooSmall.ends_game());
    assert!(!Reply::TooBig.ends_game());
    assert!(!Reply::NotANumber.ends_game());
    assert_eq!(Reply::Win.message(), Some("You win!"));
    assert_eq!(Reply::TooSmall.message(), Some("Too small!"));
    assert_eq!(Reply::TooBig.message(), Some("Too big!"));
    assert_eq!(Reply::NotANumber.message(), None);
}
