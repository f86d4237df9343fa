use compact_str::{assert_properly_allocated, Action, CompactString, Creation, Scenario};
use proptest::strategy::Strategy;
use proptest::test_runner::{Config, TestRunner};

fn runner() -> TestRunner {
    let config = Config { cases: 256, failure_persistence: None, ..Config::default() };
    TestRunner::new_with_rng(
        config,
        proptest::test_runner::TestRng::deterministic_rng(proptest::test_runner::RngAlgorithm::ChaCha),
    )
}

fn created(creation: Creation<'_>) -> (CompactString, String) {
    let (compact, control) = creation.create().expect("the bytes are UTF-8");
    assert_eq!(compact.as_str(), control);
    assert_eq!(compact.len(), control.len());
    (compact, control)
}

#[test]
fn test_create_word() {
    let (compact, control) = created(Creation::Word(String::from("nyc pizza")));
    assert_eq!(control, "nyc pizza");
    assert!(assert_properly_allocated(&compact, &control));
    let (compact, control) =
        created(Creation::Word(String::from("this text is longer than twenty-four bytes")));
    assert!(compact.is_heap_allocated());
    assert!(assert_properly_allocated(&compact, &control));
}

#[test]
fn test_create_from_string() {
    let (compact, control) = created(Creation::FromString(String::from("nyc")));
    assert_eq!(control, "nyc");
    assert!(compact.is_heap_allocated());
    assert!(!assert_properly_allocated(&compact, &control));
    let (compact, control) = created(Creation::FromString(String::new()));
    assert_eq!(control, "");
    assert!(!compact.is_heap_allocated());
}

#[test]
fn test_create_from_box_str() {
    let (compact, control) = created(Creation::FromBoxStr(String::from("nyc").into_boxed_str()));
    assert_eq!(control, "nyc");
    assert!(compact.is_heap_allocated());
    let (compact, _) = created(Creation::FromBoxStr(String::new().into_boxed_str()));
    assert!(!compact.is_heap_allocated());
    assert!(compact.is_empty());
}

#[test]
fn test_create_from_pieces() {
    let (compact, control) = created(Creation::IterChar("aé€🦀".chars().collect()));
    assert_eq!(control, "aé€🦀");
    assert!(assert_properly_allocated(&compact, &control));
    let strings = vec![String::from("nyc "), String::new(), String::from("pizza is good, and more")];
    let (compact, control) = created(Creation::IterString(strings));
    assert_eq!(control, "nyc pizza is good, and more");
    assert!(compact.is_heap_allocated());
    assert!(assert_properly_allocated(&compact, &control));
    let (compact, control) = created(Creation::IterString(Vec::new()));
    assert_eq!(control, "");
    assert!(!compact.is_heap_allocated());
}

#[test]
fn test_create_from_bytes() {
    let (compact, control) = created(Creation::Bytes("nyc 🦀".as_bytes()));
    assert_eq!(control, "nyc 🦀");
    assert!(assert_properly_allocated(&compact, &control));
    let (compact, control) = created(Creation::Buf("statue of liberty, new york city".as_bytes()));
    assert_eq!(control, "statue of liberty, new york city");
    assert!(compact.is_heap_allocated());
    assert!(Creation::Bytes(b"nyc\xFF").create().is_none());
    assert!(Creation::Buf(b"\xE2\x82").create().is_none());
    assert!(Creation::NonContiguousBuf(b"abc\xC3").create().is_none());
}

#[test]
fn test_create_from_wrapped_buffer() {
    let (compact, control) = created(Creation::NonContiguousBuf(b"abc"));
    assert_eq!(control, "abc");
    assert!(!compact.is_heap_allocated());
    // four bytes and more wrap around: the rest in reverse, then the first half
    let (_, control) = created(Creation::NonContiguousBuf(b"abcd"));
    assert_eq!(control, "dabc");
    let (compact, control) = created(Creation::NonContiguousBuf(b"abcdefghijklmnopqrstuvwxyz0123456789"));
    assert_eq!(control, "9876543210zyxwvutabcdefghijklmnopqrs");
    assert!(assert_properly_allocated(&compact, &control));
}

#[test]
fn test_assert_properly_allocated() {
    let compact = CompactString::new("nyc");
    assert!(assert_properly_allocated(&compact, "nyc"));
    assert!(assert_properly_allocated(&compact, "abc"));
    assert!(!assert_properly_allocated(&compact, "nycs"));
    let adopted = CompactString::from(String::from("nyc"));
    assert!(!assert_properly_allocated(&adopted, "nyc"));
    let long = CompactString::new("this text is longer than twenty-four bytes");
    assert!(assert_properly_allocated(&long, "this text is longer than twenty-four bytes"));
}

#[test]
fn test_perform_each_action() {
    let mut compact = CompactString::new("nyc");
    let mut control = String::from("nyc");

    Action::Push('!').perform(&mut control, &mut compact);
    assert_eq!(control, "nyc!");
    assert_eq!(compact.as_str(), "nyc!");

    Action::PushStr(" pizza").perform(&mut control, &mut compact);
    assert_eq!(control, "nyc! pizza");
    assert_eq!(compact.as_str(), "nyc! pizza");

    Action::Pop(3).perform(&mut control, &mut compact);
    assert_eq!(control, "nyc! pi");
    assert_eq!(compact.as_str(), "nyc! pi");

    Action::ExtendChars(vec!['é', '🦀']).perform(&mut control, &mut compact);
    assert_eq!(control, "nyc! pié🦀");
    assert_eq!(compact.as_str(), "nyc! pié🦀");
    assert!(!compact.is_heap_allocated());

    Action::ExtendStr(vec![" is", "", " good for you"]).perform(&mut control, &mut compact);
    assert_eq!(control, "nyc! pié🦀 is good for you");
    assert_eq!(compact.as_str(), "nyc! pié🦀 is good for you");
    assert!(compact.is_heap_allocated());

    Action::CheckSubslice(10, 200).perform(&mut control, &mut compact);
    assert_eq!(control, "nyc! pié🦀 is good for you");
    assert_eq!(compact.as_str(), "nyc! pié🦀 is good for you");

    Action::Pop(255).perform(&mut control, &mut compact);
    assert_eq!(control, "");
    assert!(compact.is_empty());
    assert!(compact.is_heap_allocated());

    Action::Pop(7).perform(&mut control, &mut compact);
    assert_eq!(control, "");
    assert!(compact.is_empty());
}

#[test]
fn test_perform_empty_extend() {
    let mut packed = CompactString::new("i am 24 characters long!");
    let mut control = String::from("i am 24 characters long!");
    Action::ExtendChars(Vec::new()).perform(&mut control, &mut packed);
    Action::ExtendStr(Vec::new()).perform(&mut control, &mut packed);
    Action::ExtendStr(vec!["", ""]).perform(&mut control, &mut packed);
    Action::PushStr("").perform(&mut control, &mut packed);
    assert_eq!(packed.as_str(), "i am 24 characters long!");
    assert_eq!(control, "i am 24 characters long!");
    assert!(!packed.is_heap_allocated());
}

fn action() -> impl Strategy<Value = (u8, Vec<char>, u8)> {
    (0u8..5, proptest::collection::vec(proptest::char::any(), 0..12), proptest::num::u8::ANY)
}

fn run_scenario(start: String, steps: Vec<(u8, Vec<char>, u8)>) {
    let texts: Vec<String> = steps.iter().map(|(_, chars, _)| chars.iter().collect()).collect();
    let mut actions = Vec::new();
    for (i, (kind, chars, count)) in steps.iter().enumerate() {
        actions.push(match kind {
            0 => Action::Push(chars.first().copied().unwrap_or('x')),
            1 => Action::Pop(*count % 16),
            2 => Action::PushStr(&texts[i]),
            3 => Action::ExtendChars(chars.clone()),
            _ => Action::ExtendStr(vec![&texts[i], "", &texts[i]]),
        });
    }
    let scenario = Scenario { creation: Creation::Word(start), actions };
    let (mut compact, mut control) = scenario.creation.create().unwrap();
    let mut was_heap = compact.is_heap_allocated();
    for action in scenario.actions {
        action.perform(&mut control, &mut compact);
        assert_eq!(control, compact.as_str());
        assert_eq!(control.len(), compact.len());
        assert_eq!(control.is_empty(), compact.is_empty());
        assert_eq!(compact.is_heap_allocated(), was_heap || compact.len() > 24);
        was_heap = compact.is_heap_allocated();
    }
}

#[test]
fn test_random_scenarios() {
    let start = proptest::collection::vec(proptest::char::any(), 0..20)
        .prop_map(|v| v.into_iter().collect::<String>());
    let steps = proptest::collection::vec(action(), 0..24);
    runner()
        .run(&(start, steps), |(start, steps)| {
            run_scenario(start, steps);
            Ok(())
        })
        .unwrap();
}

#[test]
fn test_random_creations() {
    runner()
        .run(&proptest::collection::vec(proptest::num::u8::ANY, 0..60), |bytes| {
            let expected = std::str::from_utf8(&bytes).ok().map(|s| s.to_string());
            for creation in [Creation::Bytes(&bytes), Creation::Buf(&bytes)] {
                match (creation.create(), &expected) {
                    (Some((compact, control)), Some(text)) => {
                        assert_eq!(&control, text);
                        assert_eq!(compact.as_str(), text);
                        assert!(assert_properly_allocated(&compact, text));
                    }
                    (None, None) => {}
                    _ => panic!("CompactString and core::str read UTF-8 differently?"),
                }
            }
            let mut wrapped: Vec<u8> = bytes.clone();
            if bytes.len() > 3 {
                let (front, back) = bytes.split_at(bytes.len() / 2 + 1);
                wrapped = back.iter().rev().copied().collect();
                wrapped.extend_from_slice(front);
            }
            let expected = std::str::from_utf8(&wrapped).ok().map(|s| s.to_string());
            match (Creation::NonContiguousBuf(&bytes).create(), &expected) {
                (Some((compact, control)), Some(text)) => {
                    assert_eq!(&control, text);
                    assert_eq!(compact.as_str(), text);
                }
                (None, None) => {}
                _ => panic!("CompactString and core::str read UTF-8 differently?"),
            }
            Ok(())
        })
        .unwrap();
}
