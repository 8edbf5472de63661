use rustx11shortcuts::{
    ApplicationBindings, Binding, Callback, Decision, Event, KeyPress, Remap,
};

const SHIFT: u32 = 1;
const LOCK: u32 = 2;
const CTRL: u32 = 4;
const ALT: u32 = 8;
const MOD2: u32 = 16;
const MOD3: u32 = 32;

const ATOM: u64 = 335;

fn firefox() -> ApplicationBindings {
    ApplicationBindings {
        wm_class: String::from("firefox"),
        bindings: vec![
            (KeyPress::new(0x31, ALT), Callback::remap(KeyPress::new(0x31, CTRL))),
            (KeyPress::new(0x32, ALT), Callback::remap(KeyPress::new(0x32, CTRL))),
        ],
    }
}

fn nemo() -> ApplicationBindings {
    ApplicationBindings {
        wm_class: String::from("Nemo"),
        bindings: vec![(
            KeyPress::new(0x71, ALT),
            Callback::command(vec![
                String::from("notify-send"),
                String::from("Nemo"),
                String::from("Alt+q pressed"),
            ]),
        )],
    }
}

fn press(keysym: u64, state: u32) -> Event {
    Event::KeyPress { keysym, state }
}

fn remapped_to(d: &Decision) -> Option<KeyPress> {
    match d {
        Decision::Run(cb) => cb.remap,
        _ => None,
    }
}

#[test]
fn key_press_new_keeps_its_fields() {
    let kp = KeyPress::new(0x61, SHIFT | CTRL);
    assert_eq!(kp.key, 0x61);
    assert_eq!(kp.mask, 5);
}

#[test]
fn binding_new_keeps_its_fields() {
    let b = Binding::new(0x61, ALT, Some(String::from("xterm")));
    assert_eq!(b.key, 0x61);
    assert_eq!(b.mask, ALT);
    assert_eq!(b.class, Some(String::from("xterm")));
    assert_eq!(Binding::new(1, 2, None).class, None);
}

#[test]
fn callback_constructors() {
    let r = Callback::remap(KeyPress::new(0x31, CTRL));
    assert_eq!(r.remap, Some(KeyPress::new(0x31, CTRL)));
    assert!(r.command.is_none());
    let c = Callback::command(vec![String::from("ls"), String::from("-l")]);
    assert!(c.remap.is_none());
    assert_eq!(c.command, Some(vec![String::from("ls"), String::from("-l")]));
}

#[test]
fn new_remap_passes_everything_through() {
    let r = Remap::new(ATOM);
    assert!(matches!(r.decide(&press(0x31, ALT)), Decision::PassThrough));
    assert!(matches!(r.decide(&Event::Other), Decision::PassThrough));
}

#[test]
fn register_grabs_each_combination_of_ignored_modifiers() {
    let mut r = Remap::new(ATOM);
    r.always_ignore(LOCK | MOD2);
    let grabs = r.register(firefox());
    let expected = vec![
        KeyPress::new(0x31, ALT),
        KeyPress::new(0x31, ALT | LOCK),
        KeyPress::new(0x31, ALT | MOD2),
        KeyPress::new(0x31, ALT | LOCK | MOD2),
        KeyPress::new(0x32, ALT),
        KeyPress::new(0x32, ALT | LOCK),
        KeyPress::new(0x32, ALT | MOD2),
        KeyPress::new(0x32, ALT | LOCK | MOD2),
    ];
    assert_eq!(grabs, expected);
}

#[test]
fn register_without_ignored_modifiers_grabs_each_binding_once() {
    let mut r = Remap::new(ATOM);
    let grabs = r.register(nemo());
    assert_eq!(grabs, vec![KeyPress::new(0x71, ALT)]);
}

#[test]
fn register_with_three_ignored_modifiers_grabs_eight_masks() {
    let mut r = Remap::new(ATOM);
    r.always_ignore(LOCK | MOD2 | MOD3);
    let grabs = r.register(nemo());
    assert_eq!(grabs.len(), 8);
    for g in grabs.iter() {
        assert_eq!(g.key, 0x71);
        assert_eq!(g.mask & !(LOCK | MOD2 | MOD3), ALT);
    }
}

#[test]
fn bound_key_runs_in_its_class_only() {
    let mut r = Remap::new(ATOM);
    r.register(firefox());
    r.register(nemo());
    r.on_window_change(String::from("firefox"));
    assert_eq!(remapped_to(&r.decide(&press(0x31, ALT))), Some(KeyPress::new(0x31, CTRL)));
    assert!(matches!(r.decide(&press(0x71, ALT)), Decision::PassThrough));
    r.on_window_change(String::from("Nemo"));
    match r.decide(&press(0x71, ALT)) {
        Decision::Run(cb) => {
            assert!(cb.remap.is_none());
            assert_eq!(cb.command.unwrap()[0], "notify-send");
        },
        _ => panic!("expected the command binding"),
    }
    assert!(matches!(r.decide(&press(0x31, ALT)), Decision::PassThrough));
    r.on_window_change(String::from("xterm"));
    assert!(matches!(r.decide(&press(0x31, ALT)), Decision::PassThrough));
    assert!(matches!(r.decide(&press(0x71, ALT)), Decision::PassThrough));
}

#[test]
fn ignored_modifiers_do_not_change_the_match() {
    let mut r = Remap::new(ATOM);
    r.always_ignore(LOCK | MOD2);
    r.register(firefox());
    r.on_window_change(String::from("firefox"));
    for state in [ALT, ALT | LOCK, ALT | MOD2, ALT | LOCK | MOD2] {
        assert_eq!(remapped_to(&r.decide(&press(0x32, state))), Some(KeyPress::new(0x32, CTRL)));
    }
    assert!(matches!(r.decide(&press(0x32, ALT | SHIFT)), Decision::PassThrough));
    assert!(matches!(r.decide(&press(0x32, CTRL)), Decision::PassThrough));
}

#[test]
fn keysym_is_cut_to_32_bits() {
    let mut r = Remap::new(ATOM);
    r.register(firefox());
    r.on_window_change(String::from("firefox"));
    assert!(matches!(r.decide(&press(0x1_0000_0031, ALT)), Decision::Run(_)));
}

#[test]
fn register_again_replaces_the_class_bindings() {
    let mut r = Remap::new(ATOM);
    r.register(firefox());
    r.register(ApplicationBindings {
        wm_class: String::from("firefox"),
        bindings: vec![(KeyPress::new(0x33, ALT), Callback::remap(KeyPress::new(0x33, CTRL)))],
    });
    r.on_window_change(String::from("firefox"));
    assert!(matches!(r.decide(&press(0x31, ALT)), Decision::PassThrough));
    assert_eq!(remapped_to(&r.decide(&press(0x33, ALT))), Some(KeyPress::new(0x33, CTRL)));
}

#[test]
fn later_binding_of_one_key_wins() {
    let mut r = Remap::new(ATOM);
    r.register(ApplicationBindings {
        wm_class: String::from("a"),
        bindings: vec![
            (KeyPress::new(0x31, ALT), Callback::remap(KeyPress::new(1, 0))),
            (KeyPress::new(0x31, ALT), Callback::remap(KeyPress::new(2, 0))),
        ],
    });
    r.on_window_change(String::from("a"));
    assert_eq!(remapped_to(&r.decide(&press(0x31, ALT))), Some(KeyPress::new(2, 0)));
}

#[test]
fn bindings_registered_later_wait_for_the_next_window_change() {
    let mut r = Remap::new(ATOM);
    r.on_window_change(String::from("firefox"));
    r.register(firefox());
    assert!(matches!(r.decide(&press(0x31, ALT)), Decision::PassThrough));
    r.on_window_change(String::from("firefox"));
    assert!(matches!(r.decide(&press(0x31, ALT)), Decision::Run(_)));
}

#[test]
fn active_window_property_is_followed() {
    let r = Remap::new(ATOM);
    match r.decide(&Event::PropertyNotify { atom: ATOM, window: 7 }) {
        Decision::FollowActiveWindow { atom, window } => {
            assert_eq!(atom, ATOM);
            assert_eq!(window, 7);
        },
        _ => panic!("expected to follow the active window"),
    }
    assert!(matches!(
        r.decide(&Event::PropertyNotify { atom: ATOM + 1, window: 7 }),
        Decision::PassThrough
    ));
}
