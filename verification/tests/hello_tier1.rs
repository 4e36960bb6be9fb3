use splicer::hello_tier1::{greeting, settle_greeting, CallId, GreetingStep, HelloTier1};

fn call() -> CallId {
    CallId {
        interface_name: "my:pkg/api".to_string(),
        function_name: "run".to_string(),
    }
}

#[test]
fn lines_are_aligned() {
    assert_eq!(HelloTier1::on_call("hi", &call()), "[hi] before my:pkg/api#run");
    assert_eq!(HelloTier1::on_return("hi", &call()), "[hi] after  my:pkg/api#run");
}

#[test]
fn the_greeting_is_asked_for_once() {
    let mut cached = None;
    match greeting(&cached) {
        GreetingStep::Ask(key) => assert_eq!(key, "greeting"),
        GreetingStep::Ready(_) => panic!("nothing was cached"),
    }
    assert_eq!(settle_greeting(&mut cached, Some("wired-up-greeting".to_string())), "wired-up-greeting");
    match greeting(&cached) {
        GreetingStep::Ready(g) => assert_eq!(g, "wired-up-greeting"),
        GreetingStep::Ask(_) => panic!("the greeting was cached"),
    }
}

#[test]
fn without_configuration_there_is_a_default() {
    let mut cached = None;
    assert_eq!(settle_greeting(&mut cached, None), "hello-tier1");
    assert_eq!(cached.as_deref(), Some("hello-tier1"));
}

#[test]
fn racers_get_the_same_greeting() {
    let mut cached = None;
    assert_eq!(settle_greeting(&mut cached, Some("first".to_string())), "first");
    assert_eq!(settle_greeting(&mut cached, Some("second".to_string())), "first");
    assert_eq!(settle_greeting(&mut cached, None), "first");
    assert_eq!(cached.as_deref(), Some("first"));
}
