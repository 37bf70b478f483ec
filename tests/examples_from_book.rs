use refcount::adder::{add, add_2, add_one, greet, Guess, Rectangle};
use refcount::art::{mix, PrimaryColor, SecondaryColor};
use refcount::blog::Post;
use refcount::gui::{Button, Screen};
use refcount::iterators::{shoes_in_my_size, Counter, Shoe};
use refcount::minigrep::{Config, CONFIG_ARGS_ERR_MSG};
use refcount::modules::{inner_function, middle_function, nested_modules, try_me};

#[test]
fn lib_it_works() {
    assert_eq!(2 + 2, 4);
}

#[test]
fn adding_one() {
    assert_eq!(add_one(5), 6);
}

#[test]
fn iter_functionality() {
    let v1 = vec![1, 2, 3];
    let mut v1_iter = v1.iter();

    assert_eq!(v1_iter.next(), Some(&1));
    assert_eq!(v1_iter.next(), Some(&2));
    assert_eq!(v1_iter.next(), Some(&3));
    assert_eq!(v1_iter.next(), None);

    let v2 = vec![1, 2, 3];
    let mut v2_iter = v2.into_iter();

    assert_eq!(v2_iter.next(), Some(1));
    assert_eq!(v2_iter.next(), Some(2));
    assert_eq!(v2_iter.next(), Some(3));
    assert_eq!(v2_iter.next(), None);

    let mut v3 = vec![1, 2, 3];
    let mut v3_iter = v3.iter_mut();

    assert_eq!(v3_iter.next(), Some(&mut 1));
    assert_eq!(v3_iter.next(), Some(&mut 2));
    assert_eq!(v3_iter.next(), Some(&mut 3));
    assert_eq!(v3_iter.next(), None);
}

#[test]
fn iter_sum() {
    let v1 = vec![1, 2, 3];
    let v1_iter = v1.iter();
    let total: i32 = v1_iter.sum();
    assert_eq!(total, 6);
}

#[test]
fn iter_map() {
    let v1: Vec<i32> = vec![1, 2, 3];
    let v2: Vec<i32> = v1.iter().map(|x| x + 1).collect();
    assert_eq!(v2, vec![2, 3, 4]);
}

#[test]
fn filers_by_size() {
    let shoes = vec![
        Shoe {
            size: 10,
            style: String::from("sneaker"),
        },
        Shoe {
            size: 13,
            style: String::from("sandal"),
        },
        Shoe {
            size: 10,
            style: String::from("boot"),
        },
    ];

    assert_eq!(
        shoes_in_my_size(shoes, 10),
        vec![
            Shoe {
                size: 10,
                style: String::from("sneaker"),
            },
            Shoe {
                size: 10,
                style: String::from("boot"),
            },
        ]
    )
}

#[test]
fn count_iter() {
    let mut counter = Counter::new();

    assert_eq!(counter.next(), Some(1));
    assert_eq!(counter.next(), Some(2));
    assert_eq!(counter.next(), Some(3));
    assert_eq!(counter.next(), Some(4));
    assert_eq!(counter.next(), Some(5));
    assert_eq!(counter.next(), None);
}

fn drain(mut c: Counter) -> Vec<u32> {
    let mut out = Vec::new();
    while let Some(v) = c.next() {
        out.push(v);
    }
    out
}

#[test]
fn count_adapters() {
    let sum: u32 = drain(Counter::new())
        .into_iter()
        .zip(drain(Counter::new()).into_iter().skip(1))
        .map(|(a, b)| a * b)
        .filter(|x| x % 3 == 0)
        .sum();

    assert_eq!(sum, 18)
}

#[test]
fn counter_stays_spent() {
    let mut counter = Counter::new();
    for _ in 0..5 {
        assert!(counter.next().is_some());
    }
    for _ in 0..1000 {
        assert_eq!(counter.next(), None);
    }
}

#[test]
fn parses_configs_from_valid_args() {
    assert_eq!(
        Ok(Config {
            query: "body".to_string(),
            path: "poem.txt".to_string(),
            case_sensitive: true,
        }),
        Config::new(
            &[
                "path/to/binary".to_string(),
                "body".to_string(),
                "poem.txt".to_string()
            ],
            false
        )
    )
}

#[test]
fn returns_err_from_invalid_args() {
    assert_eq!(
        Err(CONFIG_ARGS_ERR_MSG),
        Config::new(&["body".to_string(), "poem.txt".to_string()], false)
    )
}

#[test]
fn config_case_insensitive_flag() {
    let c = Config::new(&["bin".to_string(), "q".to_string(), "p".to_string()], true).unwrap();
    assert!(!c.case_sensitive);
    assert_eq!(c.query, "q");
    assert_eq!(c.path, "p");
}

#[test]
fn test_extending_gui_lib() {
    let screen = Screen {
        components: vec![Button {
            width: 50,
            height: 10,
            label: String::from("OK"),
        }],
    };
    screen.run();
}

#[test]
fn exploration() {
    assert_eq!(2 + 2, 4);
}

#[test]
fn larger_can_hold_smaller() {
    let r1 = Rectangle {
        length: 2,
        width: 3,
    };

    let r2 = Rectangle {
        length: 1,
        width: 2,
    };
    assert!(r1.can_hold(&r2));
}

#[test]
fn smaller_cannot_hold_larger() {
    let r1 = Rectangle {
        length: 2,
        width: 3,
    };

    let r2 = Rectangle {
        length: 1,
        width: 2,
    };
    assert!(!r2.can_hold(&r1));
}

#[test]
fn lib_it_adds_two() {
    assert_eq!(4, add_2(2));
}

#[test]
fn it_tests_private_funcs() {
    assert_eq!(add(2, 2), 4);
}

#[test]
fn it_compares_two_rect_structs() {
    assert_eq!(
        Rectangle {
            length: 2,
            width: 2
        },
        Rectangle {
            length: 2,
            width: 2
        }
    )
}

#[test]
fn greeting_contains_name() {
    let res = greet("Carol");
    let expected = "Carol";
    assert!(
        res.contains(expected),
        "Expecting greeting to contain {}, got: {}",
        expected,
        res
    );
}

#[test]
fn greeting_is_exact() {
    assert_eq!(greet("Carol"), "Hello Carol!");
    assert_eq!(greet(""), "Hello !");
}

#[test]
fn integration_tests_it_adds_two() {
    assert_eq!(add_2(2), 4);
}

#[test]
fn guess_keeps_value() {
    assert_eq!(Guess::new(1).value(), 1);
    assert_eq!(Guess::new(100).value(), 100);
}

#[test]
fn mixes_primary_colors() {
    assert_eq!(mix(PrimaryColor::Red, PrimaryColor::Yellow), Some(SecondaryColor::Orange));
    assert_eq!(mix(PrimaryColor::Yellow, PrimaryColor::Red), Some(SecondaryColor::Orange));
    assert_eq!(mix(PrimaryColor::Red, PrimaryColor::Blue), Some(SecondaryColor::Purple));
    assert_eq!(mix(PrimaryColor::Blue, PrimaryColor::Yellow), Some(SecondaryColor::Green));
    assert_eq!(mix(PrimaryColor::Blue, PrimaryColor::Blue), None);
    assert_eq!(mix(PrimaryColor::Red, PrimaryColor::Red), None);
}

#[test]
fn post_goes_through_review() {
    let mut post = Post::new();
    post.add_text("I ate a salad");
    assert_eq!(post.content(), None);
    let post = post.request_review();
    assert_eq!(post.content(), None);
    let post = post.approve();
    assert_eq!(post.content(), None);
    let post = post.approve();
    assert_eq!(post.content(), Some("I ate a salad"));
}

#[test]
fn rejected_post_returns_to_draft() {
    let mut post = Post::new();
    post.add_text("first");
    let mut post = post.request_review().approve().reject();
    assert_eq!(post.content(), None);
    post.add_text(" second");
    let post = post.request_review().approve().approve();
    assert_eq!(post.content(), Some("first second"));
}

#[test]
fn published_post_ignores_more_text() {
    let mut post = Post::new();
    post.add_text("done");
    let mut post = post.request_review().approve().approve();
    post.add_text(" more");
    assert_eq!(post.content(), Some("done"));
}

#[test]
fn module_functions_run() {
    middle_function();
    inner_function();
    try_me();
    nested_modules();
}
