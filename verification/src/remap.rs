//! The state of the key remapper: registered bindings, the bindings of the active window, and
//! the decision taken on each X event.
use vstd::prelude::*;
use vstd::arithmetic::power2::{pow2, lemma2_to64, lemma_pow2_strictly_increases};
use crate::bindings::{ApplicationBindings, Callback, CallbackView, bindings_view};
use crate::combinations::{
    combination_mask, get_ones_indexes, lemma_combination_covers, lemma_combination_within_mask,
    map_indexes_combination, ones_indexes, total_combinations,
};
use crate::types::KeyPress;

verus! {

/// The map that a list of entries gives when each is inserted in turn: of two entries with
/// one key, the later stands.
pub open spec fn last_wins<K, V>(entries: Seq<(K, V)>) -> Map<K, V>
    decreases entries.len(),
{
    if entries.len() == 0 {
        Map::empty()
    } else {
        last_wins(entries.drop_last()).insert(entries.last().0, entries.last().1)
    }
}

/// The entries whose key is not `key`, in their order.
pub open spec fn without_key<K, V>(entries: Seq<(K, V)>, key: K) -> Seq<(K, V)>
    decreases entries.len(),
{
    if entries.len() == 0 {
        entries
    } else if entries.last().0 == key {
        without_key(entries.drop_last(), key)
    } else {
        without_key(entries.drop_last(), key).push(entries.last())
    }
}

proof fn lemma_last_wins_without<K, V>(entries: Seq<(K, V)>, key: K)
    ensures
        last_wins(without_key(entries, key)) == last_wins(entries).remove(key),
    decreases entries.len(),
{
    if entries.len() == 0 {
        assert(last_wins(entries).remove(key) =~= last_wins(entries));
    } else {
        let front = entries.drop_last();
        lemma_last_wins_without(front, key);
        if entries.last().0 == key {
            assert(last_wins(front).remove(key) =~= last_wins(entries).remove(key));
        } else {
            let kept = without_key(front, key);
            assert(kept.push(entries.last()).drop_last() =~= kept);
            assert(last_wins(front).remove(key).insert(entries.last().0, entries.last().1)
                =~= last_wins(entries).remove(key));
        }
    }
}

proof fn lemma_last_wins_at<K, V>(entries: Seq<(K, V)>, key: K, t: int)
    requires
        0 <= t < entries.len(),
        entries[t].0 == key,
        forall|u: int| t < u < entries.len() ==> (#[trigger] entries[u]).0 != key,
    ensures
        last_wins(entries).contains_key(key),
        last_wins(entries)[key] == entries[t].1,
    decreases entries.len(),
{
    let front = entries.drop_last();
    if t < entries.len() - 1 {
        assert forall|u: int| t < u < front.len() implies (#[trigger] front[u]).0 != key by {
            assert(front[u] == entries[u]);
        }
        lemma_last_wins_at(front, key, t);
        assert(entries[entries.len() - 1].0 != key);
    }
}

proof fn lemma_last_wins_absent<K, V>(entries: Seq<(K, V)>, key: K)
    requires
        forall|u: int| 0 <= u < entries.len() ==> (#[trigger] entries[u]).0 != key,
    ensures
        !last_wins(entries).contains_key(key),
    decreases entries.len(),
{
    if entries.len() > 0 {
        let front = entries.drop_last();
        assert forall|u: int| 0 <= u < front.len() implies (#[trigger] front[u]).0 != key by {
            assert(front[u] == entries[u]);
        }
        lemma_last_wins_absent(front, key);
        assert(entries[entries.len() - 1].0 != key);
    }
}

/// The class and binding values of a list of application bindings.
pub open spec fn applications_view(apps: Seq<ApplicationBindings>) -> Seq<
    (Seq<char>, Seq<(KeyPress, CallbackView)>),
> {
    apps.map_values(|a: ApplicationBindings| (a.wm_class@, bindings_view(a.bindings@)))
}

/// The masks of all combinations of the set bits of `ignore`, the combination `i` at place `i`.
pub open spec fn combination_masks(ignore: u32) -> Seq<u32> {
    Seq::new(
        pow2(ones_indexes(ignore).len()),
        |i: int| combination_mask(ones_indexes(ignore), i as u32),
    )
}

/// The key presses grabbed for `kp`: its key, with its mask joined to each combination of the
/// ignored modifiers.
pub open spec fn grabs_for(kp: KeyPress, ignore: u32) -> Seq<KeyPress> {
    combination_masks(ignore).map_values(|m: u32| KeyPress { key: kp.key, mask: kp.mask | m })
}

/// The key presses grabbed for a list of bindings, binding by binding.
pub open spec fn grab_list(bindings: Seq<(KeyPress, CallbackView)>, ignore: u32) -> Seq<KeyPress>
    decreases bindings.len(),
{
    if bindings.len() == 0 {
        Seq::empty()
    } else {
        grab_list(bindings.drop_last(), ignore) + grabs_for(bindings.last().0, ignore)
    }
}

/// The value of a [`Remap`].
pub struct RemapView {
    pub always_ignore: u32,
    pub application_bindings: Map<Seq<char>, Seq<(KeyPress, CallbackView)>>,
    pub active_bindings: Map<KeyPress, CallbackView>,
    pub active_wm_class: Seq<char>,
    pub atom_active_window: u64,
}

/// The state of the remapper: the bindings registered for each window class, the modifiers
/// that key presses are matched without, and the bindings of the active window's class.
pub struct Remap {
    always_ignore: u32,
    application_bindings: Vec<ApplicationBindings>,
    active_bindings: Vec<(KeyPress, Callback)>,
    active_wm_class: String,
    atom_active_window: u64,
}

impl View for Remap {
    type V = RemapView;

    closed spec fn view(&self) -> RemapView {
        RemapView {
            always_ignore: self.always_ignore,
            application_bindings: last_wins(applications_view(self.application_bindings@)),
            active_bindings: last_wins(bindings_view(self.active_bindings@)),
            active_wm_class: self.active_wm_class@,
            atom_active_window: self.atom_active_window,
        }
    }
}

/// The state after the modifiers `masks` are set to be ignored.
pub open spec fn ignoring(v: RemapView, masks: u32) -> RemapView {
    RemapView { always_ignore: masks, ..v }
}

/// The state after the bindings `bindings` are registered for the class `wm_class`.
pub open spec fn registered(
    v: RemapView,
    wm_class: Seq<char>,
    bindings: Seq<(KeyPress, CallbackView)>,
) -> RemapView {
    RemapView { application_bindings: v.application_bindings.insert(wm_class, bindings), ..v }
}

/// The state after the active window changed to one of class `wm_class`.
pub open spec fn window_changed(v: RemapView, wm_class: Seq<char>) -> RemapView {
    RemapView {
        active_wm_class: wm_class,
        active_bindings: if v.application_bindings.contains_key(wm_class) {
            last_wins(v.application_bindings[wm_class])
        } else {
            Map::empty()
        },
        ..v
    }
}

/// What the remapper is told of an X event.
#[derive(Clone, Copy, Debug, PartialEq, Eq)]
pub enum Event {
    /// A grabbed key was pressed: its keysym and the modifier state at the press.
    KeyPress { keysym: u64, state: u32 },
    /// A property of the window `window` changed; `atom` names the property.
    PropertyNotify { atom: u64, window: u64 },
    /// Any other event.
    Other,
}

/// What is to be done with an X event.
#[derive(Debug)]
pub enum Decision {
    /// Nothing is bound to the event: it goes on to its window.
    PassThrough,
    /// The active window may have changed: the window that the property `atom` of `window`
    /// names is to be looked up, the remapper told of its class, and the event passed through.
    FollowActiveWindow { atom: u64, window: u64 },
    /// A bound key press: its callback is to be run and the key press swallowed.
    Run(Callback),
}

/// The value of a [`Decision`].
pub enum DecisionView {
    PassThrough,
    FollowActiveWindow { atom: u64, window: u64 },
    Run(CallbackView),
}

impl View for Decision {
    type V = DecisionView;

    open spec fn view(&self) -> DecisionView {
        match self {
            Decision::PassThrough => DecisionView::PassThrough,
            Decision::FollowActiveWindow { atom, window } => DecisionView::FollowActiveWindow {
                atom: *atom,
                window: *window,
            },
            Decision::Run(callback) => DecisionView::Run(callback@),
        }
    }
}

/// The key press that an X key event with keysym `keysym` and modifier state `state` is
/// matched as: the keysym cut to 32 bits, and the state without the ignored modifiers.
pub open spec fn matched_key_press(keysym: u64, state: u32, ignore: u32) -> KeyPress {
    KeyPress { key: keysym as u32, mask: state & !ignore }
}

/// The decision that state `v` takes on `event`.
pub open spec fn decide_spec(v: RemapView, event: Event) -> DecisionView {
    match event {
        Event::KeyPress { keysym, state } => {
            let kp = matched_key_press(keysym, state, v.always_ignore);
            if v.active_bindings.contains_key(kp) {
                DecisionView::Run(v.active_bindings[kp])
            } else {
                DecisionView::PassThrough
            }
        },
        Event::PropertyNotify { atom, window } => {
            if atom == v.atom_active_window {
                DecisionView::FollowActiveWindow { atom, window }
            } else {
                DecisionView::PassThrough
            }
        },
        Event::Other => DecisionView::PassThrough,
    }
}

impl Remap {
    /// A remapper with no bindings and no ignored modifiers, that follows the active window
    /// through the property `atom_active_window` of the root window.
    pub fn new(atom_active_window: u64) -> (r: Self)
        ensures
            r@.always_ignore == 0,
            r@.application_bindings == Map::<Seq<char>, Seq<(KeyPress, CallbackView)>>::empty(),
            r@.active_bindings == Map::<KeyPress, CallbackView>::empty(),
            r@.active_wm_class == Seq::<char>::empty(),
            r@.atom_active_window == atom_active_window,
    {
        Remap {
            always_ignore: 0,
            application_bindings: Vec::new(),
            active_bindings: Vec::new(),
            active_wm_class: String::new(),
            atom_active_window,
        }
    }

    /// Sets the modifiers that key presses are matched without.
    pub fn always_ignore(&mut self, masks: u32)
        ensures
            final(self)@ == ignoring(old(self)@, masks),
            final(self)@.always_ignore == masks,
            final(self)@.application_bindings == old(self)@.application_bindings,
            final(self)@.active_bindings == old(self)@.active_bindings,
            final(self)@.active_wm_class == old(self)@.active_wm_class,
            final(self)@.atom_active_window == old(self)@.atom_active_window,
    {
        self.always_ignore = masks;
    }

    /// Registers the bindings of one window class, in place of any registered before for that
    /// class. Returns the key presses to grab: for each binding in turn, its key with its mask
    /// joined to every combination of the ignored modifiers, the combination `i` at place `i`.
    pub fn register(&mut self, app_bindings: ApplicationBindings) -> (grabs: Vec<KeyPress>)
        requires
            ones_indexes(old(self)@.always_ignore).len() < usize::BITS,
        ensures
            final(self)@ == registered(
                old(self)@,
                app_bindings.wm_class@,
                bindings_view(app_bindings.bindings@),
            ),
            grabs@ == grab_list(bindings_view(app_bindings.bindings@), old(self)@.always_ignore),
            final(self)@.application_bindings.contains_key(app_bindings.wm_class@),
            final(self)@.application_bindings[app_bindings.wm_class@] == bindings_view(
                app_bindings.bindings@,
            ),
            forall|d: Seq<char>|
                d != app_bindings.wm_class@ ==> (#[trigger] final(self)@.application_bindings.contains_key(d)
                    == old(self)@.application_bindings.contains_key(d)),
            forall|d: Seq<char>|
                d != app_bindings.wm_class@ && old(self)@.application_bindings.contains_key(d)
                    ==> #[trigger] final(self)@.application_bindings[d]
                    == old(self)@.application_bindings[d],
            final(self)@.always_ignore == old(self)@.always_ignore,
            final(self)@.active_bindings == old(self)@.active_bindings,
            final(self)@.active_wm_class == old(self)@.active_wm_class,
            final(self)@.atom_active_window == old(self)@.atom_active_window,
    {
        let ignore = self.always_ignore;
        let ghost bindings = bindings_view(app_bindings.bindings@);
        let mut grabs: Vec<KeyPress> = Vec::new();
        let n = app_bindings.bindings.len();
        let mut j: usize = 0;
        while j < n
            invariant
                j <= n,
                n == app_bindings.bindings.len(),
                bindings == bindings_view(app_bindings.bindings@),
                ones_indexes(ignore).len() < usize::BITS,
                grabs@ == grab_list(bindings.take(j as int), ignore),
            decreases n - j,
        {
            let binding = app_bindings.bindings[j].0;
            let ignore_indexes = get_ones_indexes(ignore);
            let total = total_combinations(ignore_indexes.len());
            proof {
                lemma2_to64();
                if ignore_indexes.len() < 32 {
                    lemma_pow2_strictly_increases(ignore_indexes.len() as nat, 32);
                }
            }
            let mut i: usize = 0;
            while i < total
                invariant
                    i <= total,
                    total == pow2(ones_indexes(ignore).len()),
                    total <= 0x1_0000_0000,
                    ignore_indexes@ == ones_indexes(ignore),
                    grabs@ == grab_list(bindings.take(j as int), ignore) + grabs_for(
                        binding,
                        ignore,
                    ).take(i as int),
                decreases total - i,
            {
                let combination_index = i as u32;
                proof {
                    lemma_combination_within_mask(ignore, combination_index);
                }
                let combination = map_indexes_combination(&ignore_indexes, combination_index);
                grabs.push(KeyPress::new(binding.key, binding.mask | combination));
                proof {
                    assert(grabs_for(binding, ignore).take(i + 1) =~= grabs_for(binding, ignore).take(
                        i as int,
                    ).push(KeyPress { key: binding.key, mask: binding.mask | combination }));
                }
                i = i + 1;
            }
            proof {
                assert(grabs_for(binding, ignore).take(i as int) =~= grabs_for(binding, ignore));
                assert(bindings.take(j + 1).drop_last() =~= bindings.take(j as int));
                assert(bindings[j as int].0 == binding);
            }
            j = j + 1;
        }
        proof {
            assert(bindings.take(n as int) =~= bindings);
        }
        let ghost key = app_bindings.wm_class@;
        let mut rest: Vec<ApplicationBindings> = Vec::new();
        std::mem::swap(&mut rest, &mut self.application_bindings);
        let ghost orig = applications_view(rest@);
        let mut kept: Vec<ApplicationBindings> = Vec::new();
        let ghost mut done: int = 0;
        while rest.len() > 0
            invariant
                0 <= done <= orig.len(),
                applications_view(rest@) == orig.skip(done),
                applications_view(kept@) == without_key(orig.take(done), key),
                key == app_bindings.wm_class@,
            decreases rest.len(),
        {
            let ghost before = rest@;
            proof {
                assert(applications_view(before).len() == before.len());
                assert(applications_view(before)[0] == orig.skip(done)[0]);
            }
            let a = rest.remove(0);
            proof {
                assert(orig[done] == applications_view(before)[0]);
                assert forall|i: int| 0 <= i < rest.len() implies #[trigger] applications_view(
                    rest@,
                )[i] == orig.skip(done + 1)[i] by {
                    assert(rest@[i] == before[i + 1]);
                    assert(applications_view(before)[i + 1] == orig.skip(done)[i + 1]);
                }
                assert(applications_view(rest@) =~= orig.skip(done + 1));
                assert(orig.take(done + 1).drop_last() =~= orig.take(done));
            }
            if !(a.wm_class == app_bindings.wm_class) {
                kept.push(a);
                proof {
                    assert(applications_view(kept@) =~= without_key(orig.take(done), key).push(
                        orig[done],
                    ));
                }
            }
            proof {
                done = done + 1;
            }
        }
        proof {
            assert(orig.take(done) =~= orig);
            lemma_last_wins_without(orig, key);
        }
        let ghost kept_view = applications_view(kept@);
        kept.push(app_bindings);
        proof {
            assert(applications_view(kept@).drop_last() =~= kept_view);
            assert(last_wins(orig).remove(key).insert(key, bindings) =~= last_wins(orig).insert(
                key,
                bindings,
            ));
        }
        self.application_bindings = kept;
        grabs
    }

    /// The place of the last registered application bindings of class `wm_class`.
    fn find_application(&self, wm_class: &String) -> (found: Option<usize>)
        ensures
            match found {
                Some(i) => i < self.application_bindings.len()
                    && applications_view(self.application_bindings@)[i as int].0 == wm_class@
                    && forall|u: int|
                    i < u < self.application_bindings.len() ==> (#[trigger] applications_view(
                        self.application_bindings@,
                    )[u]).0 != wm_class@,
                None => forall|u: int|
                    0 <= u < self.application_bindings.len() ==> (#[trigger] applications_view(
                        self.application_bindings@,
                    )[u]).0 != wm_class@,
            },
    {
        let mut i = self.application_bindings.len();
        while i > 0
            invariant
                i <= self.application_bindings.len(),
                forall|u: int|
                    i <= u < self.application_bindings.len() ==> (#[trigger] applications_view(
                        self.application_bindings@,
                    )[u]).0 != wm_class@,
            decreases i,
        {
            i = i - 1;
            if self.application_bindings[i].wm_class == *wm_class {
                return Some(i);
            }
        }
        None
    }

    /// The place of the last active binding of `kp`.
    fn find_active(&self, kp: KeyPress) -> (found: Option<usize>)
        ensures
            match found {
                Some(i) => i < self.active_bindings.len() && self.active_bindings[i as int].0 == kp
                    && forall|u: int|
                    i < u < self.active_bindings.len() ==> (#[trigger] self.active_bindings[u]).0
                        != kp,
                None => forall|u: int|
                    0 <= u < self.active_bindings.len() ==> (#[trigger] self.active_bindings[u]).0
                        != kp,
            },
    {
        let mut i = self.active_bindings.len();
        while i > 0
            invariant
                i <= self.active_bindings.len(),
                forall|u: int|
                    i <= u < self.active_bindings.len() ==> (#[trigger] self.active_bindings[u]).0
                        != kp,
            decreases i,
        {
            i = i - 1;
            if self.active_bindings[i].0 == kp {
                return Some(i);
            }
        }
        None
    }

    /// Takes note that the active window is now one of class `wm_class`: the bindings of that
    /// class, if any are registered, become the active bindings; else none are active.
    pub fn on_window_change(&mut self, wm_class: String)
        ensures
            final(self)@ == window_changed(old(self)@, wm_class@),
            final(self)@.active_wm_class == wm_class@,
            old(self)@.application_bindings.contains_key(wm_class@) ==> final(self)@.active_bindings
                == last_wins(old(self)@.application_bindings[wm_class@]),
            !old(self)@.application_bindings.contains_key(wm_class@) ==> final(self)@.active_bindings == Map::<KeyPress, CallbackView>::empty(),
            final(self)@.application_bindings == old(self)@.application_bindings,
            final(self)@.always_ignore == old(self)@.always_ignore,
            final(self)@.atom_active_window == old(self)@.atom_active_window,
    {
        let found = self.find_application(&wm_class);
        let mut active: Vec<(KeyPress, Callback)> = Vec::new();
        match found {
            Some(i) => {
                let app = &self.application_bindings[i];
                let ghost entries = bindings_view(app.bindings@);
                let mut k: usize = 0;
                while k < app.bindings.len()
                    invariant
                        k <= app.bindings.len(),
                        entries == bindings_view(app.bindings@),
                        bindings_view(active@) == entries.take(k as int),
                    decreases app.bindings.len() - k,
                {
                    let kp = app.bindings[k].0;
                    let callback = app.bindings[k].1.clone();
                    let ghost before = active@;
                    active.push((kp, callback));
                    proof {
                        assert(callback@ == app.bindings[k as int].1@);
                        assert(entries[k as int] == (kp, callback@));
                        assert(bindings_view(active@).drop_last() =~= bindings_view(before));
                        assert(bindings_view(active@) =~= entries.take(k + 1));
                    }
                    k = k + 1;
                }
                proof {
                    assert(entries.take(k as int) =~= entries);
                    lemma_last_wins_at(
                        applications_view(self.application_bindings@),
                        wm_class@,
                        i as int,
                    );
                }
            },
            None => {
                proof {
                    lemma_last_wins_absent(applications_view(self.application_bindings@), wm_class@);
                    assert(bindings_view(active@) =~= Seq::empty());
                }
            },
        }
        self.active_bindings = active;
        self.active_wm_class = wm_class;
    }

    /// The decision on `event`: a key press whose keysym and modifiers, less the ignored ones,
    /// are bound among the active bindings runs the last such binding's callback; a change of
    /// the root window's active-window property is followed; anything else passes through.
    pub fn decide(&self, event: &Event) -> (decision: Decision)
        ensures
            decision@ == decide_spec(self@, *event),
            match *event {
                Event::KeyPress { keysym, state } => {
                    let kp = (KeyPress { key: keysym as u32, mask: state & !self@.always_ignore });
                    if self@.active_bindings.contains_key(kp) {
                        decision@ == DecisionView::Run(self@.active_bindings[kp])
                    } else {
                        decision@ is PassThrough
                    }
                },
                Event::PropertyNotify { atom, window } => if atom == self@.atom_active_window {
                    decision@ == (DecisionView::FollowActiveWindow { atom, window })
                } else {
                    decision@ is PassThrough
                },
                Event::Other => decision@ is PassThrough,
            },
    {
        match event {
            Event::KeyPress { keysym, state } => {
                let mask = *state & !self.always_ignore;
                let key = *keysym as u32;
                let kp = KeyPress::new(key, mask);
                match self.find_active(kp) {
                    Some(i) => {
                        proof {
                            lemma_last_wins_at(bindings_view(self.active_bindings@), kp, i as int);
                        }
                        Decision::Run(self.active_bindings[i].1.clone())
                    },
                    None => {
                        proof {
                            lemma_last_wins_absent(bindings_view(self.active_bindings@), kp);
                        }
                        Decision::PassThrough
                    },
                }
            },
            Event::PropertyNotify { atom, window } => {
                if *atom == self.atom_active_window {
                    Decision::FollowActiveWindow { atom: *atom, window: *window }
                } else {
                    Decision::PassThrough
                }
            },
            Event::Other => Decision::PassThrough,
        }
    }
}

proof fn lemma_grab_list_contains(
    bindings: Seq<(KeyPress, CallbackView)>,
    ignore: u32,
    t: int,
    c: u32,
)
    requires
        0 <= t < bindings.len(),
        c < pow2(ones_indexes(ignore).len()),
    ensures
        grab_list(bindings, ignore).contains(
            KeyPress {
                key: bindings[t].0.key,
                mask: bindings[t].0.mask | combination_mask(ones_indexes(ignore), c),
            },
        ),
    decreases bindings.len(),
{
    let target = KeyPress {
        key: bindings[t].0.key,
        mask: bindings[t].0.mask | combination_mask(ones_indexes(ignore), c),
    };
    let front = bindings.drop_last();
    let prefix = grab_list(front, ignore);
    let whole = grab_list(bindings, ignore);
    if t == bindings.len() - 1 {
        let g = grabs_for(bindings.last().0, ignore);
        assert(g[c as int] == target);
        assert(whole[prefix.len() + c] == target);
    } else {
        assert(front[t] == bindings[t]);
        lemma_grab_list_contains(front, ignore, t, c);
        let k = choose|k: int| 0 <= k < prefix.len() && prefix[k] == target;
        assert(whole[k] == target);
    }
}

/// Registering grabs each bound key with its mask joined to every combination of the ignored
/// modifiers: for every binding and every submask `sub` of the ignored modifiers, the key
/// press with the binding's key and the binding's mask joined to `sub` is grabbed.
pub proof fn lemma_grabs_cover_ignored_modifiers(
    bindings: Seq<(KeyPress, CallbackView)>,
    ignore: u32,
    t: int,
    sub: u32,
)
    requires
        0 <= t < bindings.len(),
        sub & ignore == sub,
    ensures
        grab_list(bindings, ignore).contains(
            KeyPress { key: bindings[t].0.key, mask: bindings[t].0.mask | sub },
        ),
{
    lemma_combination_covers(ignore, sub);
    let c = choose|c: u32|
        c < pow2(ones_indexes(ignore).len()) && #[trigger] combination_mask(
            ones_indexes(ignore),
            c,
        ) == sub;
    lemma_grab_list_contains(bindings, ignore, t, c);
}

/// Registering grabs nothing else: each grabbed key press is the key of some binding with the
/// binding's mask joined to a submask of the ignored modifiers.
pub proof fn lemma_grabs_only_bound_keys(
    bindings: Seq<(KeyPress, CallbackView)>,
    ignore: u32,
    k: int,
)
    requires
        0 <= k < grab_list(bindings, ignore).len(),
    ensures
        exists|t: int, sub: u32|
            #![trigger bindings[t], sub & ignore]
            0 <= t < bindings.len() && sub & ignore == sub && grab_list(bindings, ignore)[k]
                == (KeyPress { key: bindings[t].0.key, mask: bindings[t].0.mask | sub }),
    decreases bindings.len(),
{
    let front = bindings.drop_last();
    let prefix = grab_list(front, ignore);
    let whole = grab_list(bindings, ignore);
    if k < prefix.len() {
        lemma_grabs_only_bound_keys(front, ignore, k);
        let (t, sub) = choose|t: int, sub: u32|
            #![trigger front[t], sub & ignore]
            0 <= t < front.len() && sub & ignore == sub && grab_list(front, ignore)[k]
                == (KeyPress { key: front[t].0.key, mask: front[t].0.mask | sub });
        assert(whole[k] == prefix[k]);
        assert(front[t] == bindings[t]);
    } else {
        let i = k - prefix.len();
        let t = bindings.len() - 1;
        let c = i as u32;
        let sub = combination_mask(ones_indexes(ignore), c);
        lemma_combination_within_mask(ignore, c);
        assert(whole[k] == KeyPress { key: bindings[t].0.key, mask: bindings[t].0.mask | sub });
    }
}

/// Modifiers that are ignored do not change the decision on a key press.
pub proof fn lemma_ignored_modifiers_do_not_matter(v: RemapView, keysym: u64, s1: u32, s2: u32)
    requires
        s1 & !v.always_ignore == s2 & !v.always_ignore,
    ensures
        decide_spec(v, Event::KeyPress { keysym, state: s1 }) == decide_spec(
            v,
            Event::KeyPress { keysym, state: s2 },
        ),
{
}

/// Once bindings are registered for a class and a window of that class becomes active, a key
/// press whose keysym and modifiers, less the ignored ones, are those of a binding runs the
/// callback of the last binding of that key press.
pub proof fn lemma_registered_binding_runs(
    v: RemapView,
    wm_class: Seq<char>,
    bindings: Seq<(KeyPress, CallbackView)>,
    t: int,
    keysym: u64,
    state: u32,
)
    requires
        0 <= t < bindings.len(),
        forall|u: int| t < u < bindings.len() ==> (#[trigger] bindings[u]).0 != bindings[t].0,
        keysym as u32 == bindings[t].0.key,
        state & !v.always_ignore == bindings[t].0.mask,
    ensures
        decide_spec(
            window_changed(registered(v, wm_class, bindings), wm_class),
            Event::KeyPress { keysym, state },
        ) == DecisionView::Run(bindings[t].1),
{
    lemma_last_wins_at(bindings, bindings[t].0, t);
    assert(matched_key_press(keysym, state, v.always_ignore) == bindings[t].0);
}

/// In a window of a class with no registered bindings, every key press passes through.
pub proof fn lemma_unbound_class_passes_through(
    v: RemapView,
    wm_class: Seq<char>,
    keysym: u64,
    state: u32,
)
    requires
        !v.application_bindings.contains_key(wm_class),
    ensures
        decide_spec(window_changed(v, wm_class), Event::KeyPress { keysym, state })
            == DecisionView::PassThrough,
{
}

proof fn lemma_last_wins_contains<K, V>(entries: Seq<(K, V)>, key: K)
    ensures
        last_wins(entries).contains_key(key) <==> exists|t: int|
            0 <= t < entries.len() && (#[trigger] entries[t]).0 == key,
    decreases entries.len(),
{
    if entries.len() > 0 {
        let front = entries.drop_last();
        lemma_last_wins_contains(front, key);
        if exists|t: int| 0 <= t < front.len() && (#[trigger] front[t]).0 == key {
            let t = choose|t: int| 0 <= t < front.len() && (#[trigger] front[t]).0 == key;
            assert(entries[t] == front[t]);
        }
        if exists|t: int| 0 <= t < entries.len() && (#[trigger] entries[t]).0 == key {
            let t = choose|t: int| 0 <= t < entries.len() && (#[trigger] entries[t]).0 == key;
            if t < front.len() {
                assert(front[t] == entries[t]);
            }
        }
    }
}

/// A key press is matched on its keysym cut to 32 bits and on its modifiers less the ignored
/// ones, exactly: when some active binding has that key and mask, the last such binding's
/// callback is run; when none has, the key press passes through.
pub proof fn lemma_key_press_decision(v: RemapView, keysym: u64, state: u32)
    ensures
        ({
            let kp = KeyPress { key: keysym as u32, mask: state & !v.always_ignore };
            &&& v.active_bindings.contains_key(kp) ==> decide_spec(
                v,
                Event::KeyPress { keysym, state },
            ) == DecisionView::Run(v.active_bindings[kp])
            &&& !v.active_bindings.contains_key(kp) ==> decide_spec(
                v,
                Event::KeyPress { keysym, state },
            ) is PassThrough
        }),
        forall|cb: CallbackView|
            decide_spec(v, Event::KeyPress { keysym, state }) == DecisionView::Run(cb) ==> exists|
                kp: KeyPress,
            |
                #![trigger v.active_bindings[kp]]
                kp.key == keysym as u32 && kp.mask == state & !v.always_ignore
                    && v.active_bindings.contains_key(kp) && v.active_bindings[kp] == cb,
{
    let kp = KeyPress { key: keysym as u32, mask: state & !v.always_ignore };
    assert(matched_key_press(keysym, state, v.always_ignore) == kp);
    assert forall|cb: CallbackView|
        decide_spec(v, Event::KeyPress { keysym, state }) == DecisionView::Run(cb) implies exists|
            kp2: KeyPress,
        |
            #![trigger v.active_bindings[kp2]]
            kp2.key == keysym as u32 && kp2.mask == state & !v.always_ignore
                && v.active_bindings.contains_key(kp2) && v.active_bindings[kp2] == cb by {
        assert(v.active_bindings.contains_key(kp));
        assert(v.active_bindings[kp] == cb);
    }
}

/// A property change is followed exactly when it is of the active-window property; any other
/// property change, and any other event, passes through.
pub proof fn lemma_property_decision(v: RemapView, atom: u64, window: u64)
    ensures
        atom == v.atom_active_window ==> decide_spec(v, Event::PropertyNotify { atom, window })
            == (DecisionView::FollowActiveWindow { atom, window }),
        atom != v.atom_active_window ==> decide_spec(
            v,
            Event::PropertyNotify { atom, window },
        ) is PassThrough,
        decide_spec(v, Event::Other) is PassThrough,
{
}

/// Registering bindings for a class makes them that class's bindings and leaves every other
/// class, and the rest of the state, as it was.
pub proof fn lemma_register_touches_only_its_class(
    v: RemapView,
    wm_class: Seq<char>,
    bindings: Seq<(KeyPress, CallbackView)>,
    other: Seq<char>,
)
    ensures
        registered(v, wm_class, bindings).application_bindings.contains_key(wm_class),
        registered(v, wm_class, bindings).application_bindings[wm_class] == bindings,
        other != wm_class ==> (registered(v, wm_class, bindings).application_bindings.contains_key(
            other,
        ) == v.application_bindings.contains_key(other)),
        other != wm_class && v.application_bindings.contains_key(other) ==> registered(
            v,
            wm_class,
            bindings,
        ).application_bindings[other] == v.application_bindings[other],
        registered(v, wm_class, bindings).always_ignore == v.always_ignore,
        registered(v, wm_class, bindings).active_bindings == v.active_bindings,
        registered(v, wm_class, bindings).active_wm_class == v.active_wm_class,
        registered(v, wm_class, bindings).atom_active_window == v.atom_active_window,
{
}

/// After the active window changes to one of a registered class, a key press is bound exactly
/// when some binding of that class has it, and to the callback of the last such binding; after
/// a change to a class with no bindings, nothing is bound.
pub proof fn lemma_window_change_activates_class_bindings(
    v: RemapView,
    wm_class: Seq<char>,
    kp: KeyPress,
)
    ensures
        window_changed(v, wm_class).active_wm_class == wm_class,
        window_changed(v, wm_class).application_bindings == v.application_bindings,
        window_changed(v, wm_class).always_ignore == v.always_ignore,
        window_changed(v, wm_class).atom_active_window == v.atom_active_window,
        !v.application_bindings.contains_key(wm_class) ==> !window_changed(
            v,
            wm_class,
        ).active_bindings.contains_key(kp),
        v.application_bindings.contains_key(wm_class) ==> (window_changed(
            v,
            wm_class,
        ).active_bindings.contains_key(kp) <==> exists|t: int|
            0 <= t < v.application_bindings[wm_class].len()
                && (#[trigger] v.application_bindings[wm_class][t]).0 == kp),
        forall|t: int|
            #![trigger v.application_bindings[wm_class][t]]
            v.application_bindings.contains_key(wm_class) && 0 <= t
                < v.application_bindings[wm_class].len()
                && v.application_bindings[wm_class][t].0 == kp && (forall|u: int|
                t < u < v.application_bindings[wm_class].len()
                    ==> (#[trigger] v.application_bindings[wm_class][u]).0 != kp)
                ==> window_changed(v, wm_class).active_bindings[kp]
                == v.application_bindings[wm_class][t].1,
{
    if v.application_bindings.contains_key(wm_class) {
        let bs = v.application_bindings[wm_class];
        lemma_last_wins_contains(bs, kp);
        assert forall|t: int|
            #![trigger bs[t]]
            0 <= t < bs.len() && bs[t].0 == kp && (forall|u: int|
                t < u < bs.len() ==> (#[trigger] bs[u]).0 != kp) implies window_changed(
            v,
            wm_class,
        ).active_bindings[kp] == bs[t].1 by {
            lemma_last_wins_at(bs, kp, t);
        }
    }
}

/// The bindings that become active on a window change depend only on the registered bindings
/// and the new class, not on what was active before.
pub proof fn lemma_window_change_forgets_previous(
    v1: RemapView,
    v2: RemapView,
    wm_class: Seq<char>,
)
    requires
        v1.application_bindings == v2.application_bindings,
    ensures
        window_changed(v1, wm_class).active_bindings == window_changed(v2, wm_class).active_bindings,
{
}

/// Setting the ignored modifiers replaces the earlier setting: the last setting alone counts,
/// and nothing else changes.
pub proof fn lemma_ignore_setting_replaces(v: RemapView, m1: u32, m2: u32)
    ensures
        ignoring(v, m1).always_ignore == m1,
        ignoring(ignoring(v, m1), m2) == ignoring(v, m2),
        ignoring(v, m1).application_bindings == v.application_bindings,
        ignoring(v, m1).active_bindings == v.active_bindings,
        ignoring(v, m1).active_wm_class == v.active_wm_class,
        ignoring(v, m1).atom_active_window == v.atom_active_window,
{
}

/// The grabs of a list of bindings come binding by binding, `2^n` for each, where `n` is the
/// number of ignored modifiers: place `t * 2^n + i` holds the key of binding `t` with its mask
/// joined to the mask of combination `i`.
pub proof fn lemma_grab_list_layout(
    bindings: Seq<(KeyPress, CallbackView)>,
    ignore: u32,
    t: int,
    i: int,
)
    ensures
        grab_list(bindings, ignore).len() == bindings.len() * pow2(ones_indexes(ignore).len()),
        0 <= t < bindings.len() && 0 <= i < pow2(ones_indexes(ignore).len()) ==> grab_list(
            bindings,
            ignore,
        )[t * pow2(ones_indexes(ignore).len()) + i] == (KeyPress {
            key: bindings[t].0.key,
            mask: bindings[t].0.mask | combination_mask(ones_indexes(ignore), i as u32),
        }),
    decreases bindings.len(),
{
    let p = pow2(ones_indexes(ignore).len()) as int;
    let n = bindings.len() as int;
    if n > 0 {
        let front = bindings.drop_last();
        lemma_grab_list_layout(front, ignore, t, i);
        assert((n - 1) * p + p == n * p) by (nonlinear_arith);
        if 0 <= t < n && 0 <= i < p {
            if t == n - 1 {
                assert(grabs_for(bindings.last().0, ignore)[i] == (KeyPress {
                    key: bindings[t].0.key,
                    mask: bindings[t].0.mask | combination_mask(ones_indexes(ignore), i as u32),
                }));
            } else {
                assert(t * p + i < (n - 1) * p) by (nonlinear_arith)
                    requires
                        0 <= t < n - 1,
                        0 <= i < p,
                ;
                assert(front[t] == bindings[t]);
            }
        }
    }
}

} // verus!
