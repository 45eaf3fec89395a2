//! The correlation engine: one state machine per trigger and key, advanced by
//! matched lines, ending in an alert or an expiry.
use vstd::prelude::*;
use crate::matcher::{rule_views, MatchedLine, Rule, RuleView};
use crate::settings::ConfigError;
use crate::text::{copy_pairs, copy_strs, find_value, lookup, pair_views, str_equal, str_views, strs_equal};

verus! {

/// One step of a trigger: the rule a line must satisfy, and the fields whose
/// captured value must equal the value bound by earlier steps.
#[derive(Debug)]
pub struct Step {
    pub rule: String,
    pub constraints: Vec<String>,
}

/// A named multi-step condition, correlated by the values of `keys`.
#[derive(Debug)]
pub struct Trigger {
    pub name: String,
    pub steps: Vec<Step>,
    pub keys: Vec<String>,
    /// Longest time allowed between two successive steps.
    pub window: u64,
    /// Values bound before the first step; where a name occurs twice, the
    /// first pair counts.
    pub init: Vec<(String, String)>,
}

/// The mathematical content of a [`Step`].
pub ghost struct StepView {
    pub rule: Seq<char>,
    pub constraints: Seq<Seq<char>>,
}

/// The mathematical content of a [`Trigger`].
pub ghost struct TriggerView {
    pub name: Seq<char>,
    pub steps: Seq<StepView>,
    pub keys: Seq<Seq<char>>,
    pub window: u64,
    pub init: Seq<(Seq<char>, Seq<char>)>,
}

impl View for Step {
    type V = StepView;

    open spec fn view(&self) -> StepView {
        StepView { rule: self.rule@, constraints: str_views(self.constraints@) }
    }
}

pub open spec fn step_views(v: Seq<Step>) -> Seq<StepView> {
    v.map_values(|s: Step| s@)
}

impl View for Trigger {
    type V = TriggerView;

    open spec fn view(&self) -> TriggerView {
        TriggerView {
            name: self.name@,
            steps: step_views(self.steps@),
            keys: str_views(self.keys@),
            window: self.window,
            init: pair_views(self.init@),
        }
    }
}

pub open spec fn trigger_views(v: Seq<Trigger>) -> Seq<TriggerView> {
    v.map_values(|t: Trigger| t@)
}

/// The value of a key field: captured by the line, or else bound before the
/// first step.
pub open spec fn key_value(
    name: Seq<char>,
    fields: Seq<(Seq<char>, Seq<char>)>,
    init: Seq<(Seq<char>, Seq<char>)>,
) -> Option<Seq<char>> {
    match lookup(fields, name) {
        Some(v) => Some(v),
        None => lookup(init, name),
    }
}

/// The key tuple of a line for a trigger, absent when a key field has no value.
pub open spec fn key_of(
    keys: Seq<Seq<char>>,
    fields: Seq<(Seq<char>, Seq<char>)>,
    init: Seq<(Seq<char>, Seq<char>)>,
) -> Option<Seq<Seq<char>>>
    decreases keys.len(),
{
    if keys.len() == 0 {
        Some(Seq::empty())
    } else {
        match (key_of(keys.drop_last(), fields, init), key_value(keys.last(), fields, init)) {
            (Some(k), Some(v)) => Some(k.push(v)),
            _ => None,
        }
    }
}

/// Every constraint holds: a bound field is captured again with the same value.
pub open spec fn constraints_hold(
    constraints: Seq<Seq<char>>,
    bound: Seq<(Seq<char>, Seq<char>)>,
    fields: Seq<(Seq<char>, Seq<char>)>,
) -> bool {
    forall|j: int|
        0 <= j < constraints.len() ==> match lookup(bound, #[trigger] constraints[j]) {
            Some(b) => lookup(fields, constraints[j]) == Some(b),
            None => true,
        }
}

/// Some step from `from` on constrains the field `name`.
pub open spec fn referenced(steps: Seq<StepView>, from: int, name: Seq<char>) -> bool {
    exists|j: int| from <= j < steps.len() && (#[trigger] steps[j]).constraints.contains(name)
}

/// The captured fields that later steps constrain and that are not bound yet.
pub open spec fn fresh_bindings(
    fields: Seq<(Seq<char>, Seq<char>)>,
    bound: Seq<(Seq<char>, Seq<char>)>,
    steps: Seq<StepView>,
    from: int,
) -> Seq<(Seq<char>, Seq<char>)>
    decreases fields.len(),
{
    if fields.len() == 0 {
        Seq::empty()
    } else {
        let rest = fresh_bindings(fields.drop_last(), bound, steps, from);
        let p = fields.last();
        if referenced(steps, from, p.0) && lookup(bound, p.0) is None {
            rest.push(p)
        } else {
            rest
        }
    }
}

/// The bound values after a step that captured `fields`.
pub open spec fn bind(
    bound: Seq<(Seq<char>, Seq<char>)>,
    fields: Seq<(Seq<char>, Seq<char>)>,
    steps: Seq<StepView>,
    from: int,
) -> Seq<(Seq<char>, Seq<char>)> {
    bound + fresh_bindings(fields, bound, steps, from)
}

/// Computes the key tuple of a line for a trigger.
fn key_for(t: &Trigger, fields: &Vec<(String, String)>) -> (r: Option<Vec<String>>)
    ensures
        match r {
            Some(k) => key_of(t@.keys, pair_views(fields@), t@.init) == Some(str_views(k@)),
            None => key_of(t@.keys, pair_views(fields@), t@.init) is None,
        },
{
    let mut out: Vec<String> = Vec::new();
    let mut i: usize = 0;
    while i < t.keys.len()
        invariant
            i <= t.keys.len(),
            key_of(t@.keys.take(i as int), pair_views(fields@), t@.init) == Some(str_views(out@)),
        decreases t.keys.len() - i,
    {
        let ghost prev = out@;
        assert(t@.keys.take(i + 1).drop_last() =~= t@.keys.take(i as int));
        let v = match find_value(fields, t.keys[i].as_str()) {
            Some(v) => v,
            None => match find_value(&t.init, t.keys[i].as_str()) {
                Some(v) => v,
                None => {
                    proof {
                        lemma_key_of_none(t@.keys, pair_views(fields@), t@.init, i as int);
                    }
                    return None;
                },
            },
        };
        out.push(v);
        i = i + 1;
        assert(str_views(out@) =~= str_views(prev).push(v@));
    }
    assert(t@.keys.take(i as int) =~= t@.keys);
    Some(out)
}

proof fn lemma_key_of_none(
    keys: Seq<Seq<char>>,
    fields: Seq<(Seq<char>, Seq<char>)>,
    init: Seq<(Seq<char>, Seq<char>)>,
    i: int,
)
    requires
        0 <= i < keys.len(),
        key_value(keys[i], fields, init) is None,
    ensures
        key_of(keys, fields, init) is None,
    decreases keys.len(),
{
    if i < keys.len() - 1 {
        lemma_key_of_none(keys.drop_last(), fields, init, i);
    }
}

/// Checks the constraints of a step against the bound values.
fn check_constraints(
    constraints: &Vec<String>,
    bound: &Vec<(String, String)>,
    fields: &Vec<(String, String)>,
) -> (r: bool)
    ensures
        r == constraints_hold(str_views(constraints@), pair_views(bound@), pair_views(fields@)),
{
    let ghost cs = str_views(constraints@);
    let mut i: usize = 0;
    while i < constraints.len()
        invariant
            i <= constraints.len(),
            cs == str_views(constraints@),
            forall|j: int|
                0 <= j < i ==> match lookup(pair_views(bound@), #[trigger] cs[j]) {
                    Some(b) => lookup(pair_views(fields@), cs[j]) == Some(b),
                    None => true,
                },
        decreases constraints.len() - i,
    {
        let name = constraints[i].as_str();
        assert(cs[i as int] == name@);
        match find_value(bound, name) {
            Some(b) => match find_value(fields, name) {
                Some(f) => {
                    if !str_equal(f.as_str(), b.as_str()) {
                        return false;
                    }
                },
                None => {
                    return false;
                },
            },
            None => {},
        }
        i = i + 1;
    }
    true
}

/// Whether a step from `from` on constrains the field `name`.
fn mentions(steps: &Vec<Step>, from: usize, name: &str) -> (r: bool)
    ensures
        r == referenced(step_views(steps@), from as int, name@),
{
    let ghost sv = step_views(steps@);
    let mut j: usize = from;
    while j < steps.len()
        invariant
            sv == step_views(steps@),
            from <= j,
            forall|l: int| from <= l < j && l < sv.len() ==> !(#[trigger] sv[l]).constraints.contains(name@),
        decreases steps.len() - j,
    {
        let cs = &steps[j].constraints;
        let mut k: usize = 0;
        while k < cs.len()
            invariant
                k <= cs.len(),
                from <= j < steps.len(),
                cs == steps@[j as int].constraints,
                sv == step_views(steps@),
                forall|l: int| 0 <= l < k ==> (#[trigger] cs@[l])@ != name@,
            decreases cs.len() - k,
        {
            if str_equal(cs[k].as_str(), name) {
                assert(sv[j as int].constraints[k as int] == name@);
                assert(sv[j as int].constraints.contains(name@));
                return true;
            }
            k = k + 1;
        }
        assert(!sv[j as int].constraints.contains(name@));
        j = j + 1;
    }
    false
}

/// The bound values after a step, as [`bind`] states.
fn bind_fields(
    bound: &Vec<(String, String)>,
    fields: &Vec<(String, String)>,
    steps: &Vec<Step>,
    from: usize,
) -> (r: Vec<(String, String)>)
    ensures
        pair_views(r@) == bind(pair_views(bound@), pair_views(fields@), step_views(steps@), from as int),
{
    let ghost b = pair_views(bound@);
    let ghost sv = step_views(steps@);
    let mut out = copy_pairs(bound);
    let mut i: usize = 0;
    while i < fields.len()
        invariant
            i <= fields.len(),
            b == pair_views(bound@),
            sv == step_views(steps@),
            pair_views(out@) == b + fresh_bindings(pair_views(fields@).take(i as int), b, sv, from as int),
        decreases fields.len() - i,
    {
        let ghost prev = out@;
        assert(pair_views(fields@).take(i + 1).drop_last() =~= pair_views(fields@).take(i as int));
        let name = fields[i].0.as_str();
        if mentions(steps, from, name) {
            if find_value(bound, name).is_none() {
                out.push((fields[i].0.clone(), fields[i].1.clone()));
                assert(pair_views(out@) =~= pair_views(prev).push(pair_views(fields@)[i as int]));
            }
        }
        i = i + 1;
    }
    assert(pair_views(fields@).take(i as int) =~= pair_views(fields@));
    out
}


/// Some rule named `rule` has a group named `field`.
pub open spec fn rule_declares(rules: Seq<RuleView>, rule: Seq<char>, field: Seq<char>) -> bool {
    exists|i: int| 0 <= i < rules.len() && (#[trigger] rules[i]).name == rule && rules[i].names.contains(Some(field))
}

/// Every field a step constrains is captured by a rule of the step's name.
pub open spec fn fields_known(t: TriggerView, rules: Seq<RuleView>) -> bool {
    forall|j: int, k: int|
        0 <= j < t.steps.len() && 0 <= k < t.steps[j].constraints.len() ==> rule_declares(
            rules,
            t.steps[j].rule,
            #[trigger] t.steps[j].constraints[k],
        )
}

/// Whether some rule named `rule` has a group named `field`.
fn declared(rules: &Vec<Rule>, rule: &str, field: &str) -> (r: bool)
    ensures
        r == rule_declares(rule_views(rules@), rule@, field@),
{
    let ghost rv = rule_views(rules@);
    let mut i: usize = 0;
    while i < rules.len()
        invariant
            i <= rules.len(),
            rv == rule_views(rules@),
            forall|j: int| 0 <= j < i ==> !((#[trigger] rv[j]).name == rule@ && rv[j].names.contains(Some(field@))),
        decreases rules.len() - i,
    {
        assert(rv[i as int] == rules@[i as int]@);
        if str_equal(rules[i].name(), rule) && rules[i].declares(field) {
            return true;
        }
        i = i + 1;
    }
    false
}

impl Trigger {
    /// Checks that every field a step constrains is captured by a rule of the
    /// step's name.
    pub fn check_fields(&self, rules: &Vec<Rule>) -> (r: Result<(), ConfigError>)
        ensures
            r is Ok <==> fields_known(self@, rule_views(rules@)),
            r is Err ==> r == Err::<(), ConfigError>(ConfigError::UnknownField),
    {
        let ghost tv = self@;
        let mut j: usize = 0;
        while j < self.steps.len()
            invariant
                j <= self.steps.len(),
                tv == self@,
                forall|a: int, k: int|
                    0 <= a < j && 0 <= k < tv.steps[a].constraints.len() ==> rule_declares(
                        rule_views(rules@),
                        tv.steps[a].rule,
                        #[trigger] tv.steps[a].constraints[k],
                    ),
            decreases self.steps.len() - j,
        {
            let step = &self.steps[j];
            assert(tv.steps[j as int] == step@);
            let mut k: usize = 0;
            while k < step.constraints.len()
                invariant
                    k <= step.constraints.len(),
                    j < self.steps.len(),
                    tv == self@,
                    step == self.steps@[j as int],
                    tv.steps[j as int] == step@,
                    forall|a: int, c: int|
                        0 <= a < j && 0 <= c < tv.steps[a].constraints.len() ==> rule_declares(
                            rule_views(rules@),
                            tv.steps[a].rule,
                            #[trigger] tv.steps[a].constraints[c],
                        ),
                    forall|c: int|
                        0 <= c < k ==> rule_declares(
                            rule_views(rules@),
                            tv.steps[j as int].rule,
                            #[trigger] tv.steps[j as int].constraints[c],
                        ),
                decreases step.constraints.len() - k,
            {
                assert(tv.steps[j as int].constraints[k as int] == step.constraints@[k as int]@);
                if !declared(rules, step.rule.as_str(), step.constraints[k].as_str()) {
                    return Err(ConfigError::UnknownField);
                }
                k = k + 1;
            }
            j = j + 1;
        }
        Ok(())
    }
}

/// The state of one trigger for one key tuple.
pub ghost struct InstanceView {
    /// Index of the trigger in the engine's list.
    pub trigger: int,
    pub key: Seq<Seq<char>>,
    /// Index of the next step to satisfy.
    pub step: int,
    pub bound: Seq<(Seq<char>, Seq<char>)>,
    pub created_at: u64,
    pub last_advanced_at: u64,
}

/// What the engine reports.
pub ghost enum OutcomeView {
    Alert { trigger: Seq<char>, key: Seq<Seq<char>>, bound: Seq<(Seq<char>, Seq<char>)> },
    Expire { trigger: Seq<char>, key: Seq<Seq<char>> },
}

/// The first live state at or after `i` for trigger `ti` and `key`.
pub open spec fn find_from(states: Seq<InstanceView>, ti: int, key: Seq<Seq<char>>, i: int) -> Option<int>
    decreases states.len() - i,
{
    if i < 0 || i >= states.len() {
        None
    } else if states[i].trigger == ti && states[i].key == key {
        Some(i)
    } else {
        find_from(states, ti, key, i + 1)
    }
}

/// The table after a matched line was offered to trigger `ti`, and what that
/// reported.
pub open spec fn advance_spec(
    t: TriggerView,
    ti: int,
    states: Seq<InstanceView>,
    rule: Seq<char>,
    fields: Seq<(Seq<char>, Seq<char>)>,
    now: u64,
) -> (Seq<InstanceView>, Seq<OutcomeView>) {
    match key_of(t.keys, fields, t.init) {
        None => (states, Seq::empty()),
        Some(key) => match find_from(states, ti, key, 0) {
            None => {
                if t.steps.len() > 0 && t.steps[0].rule == rule {
                    let b = bind(t.init, fields, t.steps, 1);
                    if t.steps.len() == 1 {
                        (states, seq![OutcomeView::Alert { trigger: t.name, key, bound: b }])
                    } else {
                        (
                            states.push(
                                InstanceView {
                                    trigger: ti,
                                    key,
                                    step: 1,
                                    bound: b,
                                    created_at: now,
                                    last_advanced_at: now,
                                },
                            ),
                            Seq::empty(),
                        )
                    }
                } else {
                    (states, Seq::empty())
                }
            },
            Some(i) => {
                let st = states[i];
                if 0 <= st.step < t.steps.len() && t.steps[st.step].rule == rule
                    && constraints_hold(t.steps[st.step].constraints, st.bound, fields) {
                    let b = bind(st.bound, fields, t.steps, st.step + 1);
                    if st.step + 1 == t.steps.len() {
                        (states.remove(i), seq![OutcomeView::Alert { trigger: t.name, key, bound: b }])
                    } else {
                        (
                            states.update(
                                i,
                                InstanceView {
                                    trigger: ti,
                                    key,
                                    step: st.step + 1,
                                    bound: b,
                                    created_at: st.created_at,
                                    last_advanced_at: now,
                                },
                            ),
                            Seq::empty(),
                        )
                    }
                } else {
                    (states, Seq::empty())
                }
            },
        },
    }
}

/// The line offered to the first `n` triggers in turn.
pub open spec fn advance_all(
    triggers: Seq<TriggerView>,
    n: int,
    states: Seq<InstanceView>,
    rule: Seq<char>,
    fields: Seq<(Seq<char>, Seq<char>)>,
    now: u64,
) -> (Seq<InstanceView>, Seq<OutcomeView>)
    decreases n,
{
    if n <= 0 {
        (states, Seq::empty())
    } else {
        let (s, o) = advance_all(triggers, n - 1, states, rule, fields, now);
        let (s2, o2) = advance_spec(triggers[n - 1], n - 1, s, rule, fields, now);
        (s2, o + o2)
    }
}

/// More than the window has passed since the state last advanced.
pub open spec fn expired(t: TriggerView, st: InstanceView, now: u64) -> bool {
    now as int - st.last_advanced_at as int > t.window as int
}

/// The states that are still live at `now`, in their order, and an expiry
/// for each of the others, in their order.
pub open spec fn sweep_spec(triggers: Seq<TriggerView>, states: Seq<InstanceView>, now: u64) -> (
    Seq<InstanceView>,
    Seq<OutcomeView>,
)
    decreases states.len(),
{
    if states.len() == 0 {
        (states, Seq::empty())
    } else {
        let (k, o) = sweep_spec(triggers, states.drop_last(), now);
        let st = states.last();
        if expired(triggers[st.trigger], st, now) {
            (k, o.push(OutcomeView::Expire { trigger: triggers[st.trigger].name, key: st.key }))
        } else {
            (k.push(st), o)
        }
    }
}

/// Expiry at `now`, then the line offered to every trigger in order.
pub open spec fn ingest_spec(
    triggers: Seq<TriggerView>,
    states: Seq<InstanceView>,
    rule: Seq<char>,
    fields: Seq<(Seq<char>, Seq<char>)>,
    now: u64,
) -> (Seq<InstanceView>, Seq<OutcomeView>) {
    let (s1, o1) = sweep_spec(triggers, states, now);
    let (s2, o2) = advance_all(triggers, triggers.len() as int, s1, rule, fields, now);
    (s2, o1 + o2)
}

/// Every trigger has a step, and names are distinct.
pub open spec fn triggers_wf(triggers: Seq<TriggerView>) -> bool {
    &&& forall|t: int| 0 <= t < triggers.len() ==> (#[trigger] triggers[t]).steps.len() >= 1
    &&& forall|a: int, b: int|
        0 <= a < triggers.len() && 0 <= b < triggers.len() && a != b ==> (#[trigger] triggers[a]).name
            != (#[trigger] triggers[b]).name
}

/// A live state names a trigger and waits for one of its later steps.
pub open spec fn instance_wf(triggers: Seq<TriggerView>, st: InstanceView) -> bool {
    &&& 0 <= st.trigger < triggers.len()
    &&& 1 <= st.step < triggers[st.trigger].steps.len()
}

/// At most one live state per trigger and key tuple.
pub open spec fn keys_distinct(states: Seq<InstanceView>) -> bool {
    forall|a: int, b: int|
        0 <= a < states.len() && 0 <= b < states.len() && a != b ==> !((#[trigger] states[a]).trigger
            == (#[trigger] states[b]).trigger && states[a].key == states[b].key)
}

/// The table's invariant.
pub open spec fn table_wf(triggers: Seq<TriggerView>, states: Seq<InstanceView>) -> bool {
    &&& triggers_wf(triggers)
    &&& forall|i: int| 0 <= i < states.len() ==> instance_wf(triggers, #[trigger] states[i])
    &&& keys_distinct(states)
}

proof fn lemma_find_some(states: Seq<InstanceView>, ti: int, key: Seq<Seq<char>>, i: int, j: int)
    requires
        find_from(states, ti, key, i) == Some(j),
    ensures
        0 <= i <= j < states.len(),
        states[j].trigger == ti,
        states[j].key == key,
    decreases states.len() - i,
{
    if !(states[i].trigger == ti && states[i].key == key) {
        lemma_find_some(states, ti, key, i + 1, j);
    }
}

proof fn lemma_find_none(states: Seq<InstanceView>, ti: int, key: Seq<Seq<char>>, i: int)
    requires
        0 <= i,
        find_from(states, ti, key, i) is None,
    ensures
        forall|j: int| i <= j < states.len() ==> !((#[trigger] states[j]).trigger == ti && states[j].key == key),
    decreases states.len() - i,
{
    if i < states.len() {
        lemma_find_none(states, ti, key, i + 1);
    }
}

/// Offering a line to a trigger keeps the table's invariant.
proof fn lemma_advance_wf(
    triggers: Seq<TriggerView>,
    ti: int,
    states: Seq<InstanceView>,
    rule: Seq<char>,
    fields: Seq<(Seq<char>, Seq<char>)>,
    now: u64,
)
    requires
        table_wf(triggers, states),
        0 <= ti < triggers.len(),
    ensures
        table_wf(triggers, advance_spec(triggers[ti], ti, states, rule, fields, now).0),
{
    let t = triggers[ti];
    let r = advance_spec(t, ti, states, rule, fields, now).0;
    if let Some(key) = key_of(t.keys, fields, t.init) {
        match find_from(states, ti, key, 0) {
            None => {
                lemma_find_none(states, ti, key, 0);
                assert forall|i: int| 0 <= i < r.len() implies instance_wf(triggers, #[trigger] r[i]) by {
                    if i < states.len() {
                        assert(r[i] == states[i]);
                    }
                }
            },
            Some(i) => {
                lemma_find_some(states, ti, key, 0, i);
                assert forall|a: int| 0 <= a < r.len() implies instance_wf(triggers, #[trigger] r[a]) by {
                    if r.len() < states.len() {
                        if a >= i {
                            assert(r[a] == states[a + 1]);
                        } else {
                            assert(r[a] == states[a]);
                        }
                    } else if a != i {
                        assert(r[a] == states[a]);
                    }
                }
                if r.len() < states.len() {
                    assert forall|a: int, b: int|
                        0 <= a < r.len() && 0 <= b < r.len() && a != b implies !((#[trigger] r[a]).trigger
                        == (#[trigger] r[b]).trigger && r[a].key == r[b].key) by {
                        let sa = if a >= i { a + 1 } else { a };
                        let sb = if b >= i { b + 1 } else { b };
                        assert(r[a] == states[sa]);
                        assert(r[b] == states[sb]);
                    }
                }
            },
        }
    }
}

/// Offering a line to every trigger keeps the table's invariant.
proof fn lemma_advance_all_wf(
    triggers: Seq<TriggerView>,
    n: int,
    states: Seq<InstanceView>,
    rule: Seq<char>,
    fields: Seq<(Seq<char>, Seq<char>)>,
    now: u64,
)
    requires
        table_wf(triggers, states),
        n <= triggers.len(),
    ensures
        table_wf(triggers, advance_all(triggers, n, states, rule, fields, now).0),
    decreases n,
{
    if n > 0 {
        lemma_advance_all_wf(triggers, n - 1, states, rule, fields, now);
        let s = advance_all(triggers, n - 1, states, rule, fields, now).0;
        lemma_advance_wf(triggers, n - 1, s, rule, fields, now);
    }
}

/// Every state kept by a sweep was in the table before it.
proof fn lemma_sweep_kept(triggers: Seq<TriggerView>, states: Seq<InstanceView>, now: u64)
    ensures
        forall|i: int|
            0 <= i < sweep_spec(triggers, states, now).0.len() ==> states.contains(
                #[trigger] sweep_spec(triggers, states, now).0[i],
            ),
    decreases states.len(),
{
    if states.len() > 0 {
        lemma_sweep_kept(triggers, states.drop_last(), now);
        let k = sweep_spec(triggers, states.drop_last(), now).0;
        assert forall|i: int| 0 <= i < k.len() implies states.contains(#[trigger] k[i]) by {
            let j = choose|j: int| 0 <= j < states.drop_last().len() && states.drop_last()[j] == k[i];
            assert(states[j] == k[i]);
        }
        assert(states[states.len() - 1] == states.last());
    }
}

/// A sweep keeps the table's invariant.
proof fn lemma_sweep_wf(triggers: Seq<TriggerView>, states: Seq<InstanceView>, now: u64)
    requires
        table_wf(triggers, states),
    ensures
        table_wf(triggers, sweep_spec(triggers, states, now).0),
    decreases states.len(),
{
    if states.len() > 0 {
        let d = states.drop_last();
        assert(table_wf(triggers, d)) by {
            assert forall|a: int, b: int|
                0 <= a < d.len() && 0 <= b < d.len() && a != b implies !((#[trigger] d[a]).trigger
                == (#[trigger] d[b]).trigger && d[a].key == d[b].key) by {
                assert(d[a] == states[a] && d[b] == states[b]);
            }
        }
        lemma_sweep_wf(triggers, d, now);
        lemma_sweep_kept(triggers, d, now);
        let k = sweep_spec(triggers, d, now).0;
        let st = states.last();
        if !expired(triggers[st.trigger], st, now) {
            let r = k.push(st);
            assert(instance_wf(triggers, states[states.len() - 1]));
            assert forall|a: int, b: int|
                0 <= a < r.len() && 0 <= b < r.len() && a != b implies !((#[trigger] r[a]).trigger
                == (#[trigger] r[b]).trigger && r[a].key == r[b].key) by {
                if a == k.len() {
                    assert(d.contains(r[b]));
                    let j = choose|j: int| 0 <= j < d.len() && d[j] == r[b];
                    assert(states[j] == r[b]);
                } else if b == k.len() {
                    assert(d.contains(r[a]));
                    let j = choose|j: int| 0 <= j < d.len() && d[j] == r[a];
                    assert(states[j] == r[a]);
                }
            }
        }
    }
}


/// The index of the first of the `n` first states that was created earliest.
pub open spec fn oldest_from(states: Seq<InstanceView>, n: int) -> int
    decreases n,
{
    if n <= 1 {
        0
    } else {
        let k = oldest_from(states, n - 1);
        if states[n - 1].created_at < states[k].created_at {
            n - 1
        } else {
            k
        }
    }
}

/// Removing a state keeps the table's invariant.
proof fn lemma_remove_wf(triggers: Seq<TriggerView>, states: Seq<InstanceView>, i: int)
    requires
        table_wf(triggers, states),
        0 <= i < states.len(),
    ensures
        table_wf(triggers, states.remove(i)),
{
    let r = states.remove(i);
    assert forall|a: int| 0 <= a < r.len() implies instance_wf(triggers, #[trigger] r[a]) by {
        if a >= i {
            assert(r[a] == states[a + 1]);
        } else {
            assert(r[a] == states[a]);
        }
    }
    assert forall|a: int, b: int|
        0 <= a < r.len() && 0 <= b < r.len() && a != b implies !((#[trigger] r[a]).trigger
        == (#[trigger] r[b]).trigger && r[a].key == r[b].key) by {
        let sa = if a >= i { a + 1 } else { a };
        let sb = if b >= i { b + 1 } else { b };
        assert(r[a] == states[sa]);
        assert(r[b] == states[sb]);
    }
}

/// The state of one trigger for one key tuple.
#[derive(Debug)]
struct Instance {
    trigger: usize,
    key: Vec<String>,
    step: usize,
    bound: Vec<(String, String)>,
    created_at: u64,
    last_advanced_at: u64,
}

impl View for Instance {
    type V = InstanceView;

    closed spec fn view(&self) -> InstanceView {
        InstanceView {
            trigger: self.trigger as int,
            key: str_views(self.key@),
            step: self.step as int,
            bound: pair_views(self.bound@),
            created_at: self.created_at,
            last_advanced_at: self.last_advanced_at,
        }
    }
}

impl Instance {
    fn copy(&self) -> (r: Instance)
        ensures
            r@ == self@,
    {
        Instance {
            trigger: self.trigger,
            key: copy_strs(&self.key),
            step: self.step,
            bound: copy_pairs(&self.bound),
            created_at: self.created_at,
            last_advanced_at: self.last_advanced_at,
        }
    }
}

spec fn instance_views(v: Seq<Instance>) -> Seq<InstanceView> {
    v.map_values(|i: Instance| i@)
}

/// What the engine reports: a trigger satisfied for a key tuple, with the
/// values bound on the way, or a state dropped because its window passed.
#[derive(Debug)]
pub enum Outcome {
    Alert { trigger: String, key: Vec<String>, bound: Vec<(String, String)> },
    Expire { trigger: String, key: Vec<String> },
}

impl View for Outcome {
    type V = OutcomeView;

    open spec fn view(&self) -> OutcomeView {
        match self {
            Outcome::Alert { trigger, key, bound } => OutcomeView::Alert {
                trigger: trigger@,
                key: str_views(key@),
                bound: pair_views(bound@),
            },
            Outcome::Expire { trigger, key } => OutcomeView::Expire {
                trigger: trigger@,
                key: str_views(key@),
            },
        }
    }
}

pub open spec fn outcome_views(v: Seq<Outcome>) -> Seq<OutcomeView> {
    v.map_values(|o: Outcome| o@)
}

/// The triggers and the table of live states.
#[derive(Debug)]
pub struct Engine {
    triggers: Vec<Trigger>,
    states: Vec<Instance>,
}

/// The triggers and the live states, in table order.
pub ghost struct EngineView {
    pub triggers: Seq<TriggerView>,
    pub states: Seq<InstanceView>,
}

impl View for Engine {
    type V = EngineView;

    closed spec fn view(&self) -> EngineView {
        EngineView { triggers: trigger_views(self.triggers@), states: instance_views(self.states@) }
    }
}

proof fn lemma_outcomes_push(v: Seq<Outcome>, o: Outcome)
    ensures
        outcome_views(v.push(o)) == outcome_views(v).push(o@),
{
    assert(outcome_views(v.push(o)) =~= outcome_views(v).push(o@));
}

impl Engine {
    /// The engine's invariant.
    pub open spec fn wf(&self) -> bool {
        table_wf(self@.triggers, self@.states)
    }

    /// An engine with no live state. Fails when a trigger has no step or two
    /// triggers share a name.
    pub fn new(triggers: Vec<Trigger>) -> (r: Result<Engine, ConfigError>)
        ensures
            match r {
                Ok(e) => e.wf() && e@.triggers == trigger_views(triggers@) && e@.states.len() == 0,
                Err(err) => !triggers_wf(trigger_views(triggers@)) && (err == ConfigError::EmptyTrigger
                    || err == ConfigError::DuplicateTrigger),
            },
            r is Ok <==> triggers_wf(trigger_views(triggers@)),
            r == Err::<Engine, ConfigError>(ConfigError::EmptyTrigger) <==> exists|t: int|
                0 <= t < triggers.len() && (#[trigger] triggers@[t]).steps.len() == 0,
    {
        let ghost tv = trigger_views(triggers@);
        let mut i: usize = 0;
        while i < triggers.len()
            invariant
                i <= triggers.len(),
                tv == trigger_views(triggers@),
                forall|t: int| 0 <= t < i ==> (#[trigger] triggers@[t]).steps.len() > 0,
            decreases triggers.len() - i,
        {
            if triggers[i].steps.len() == 0 {
                assert(tv[i as int].steps.len() == 0);
                return Err(ConfigError::EmptyTrigger);
            }
            i = i + 1;
        }
        assert forall|t: int| 0 <= t < tv.len() implies (#[trigger] tv[t]).steps.len() >= 1 by {
            assert(triggers@[t].steps.len() > 0);
        }
        let mut a: usize = 0;
        while a < triggers.len()
            invariant
                tv == trigger_views(triggers@),
                forall|t: int| 0 <= t < triggers.len() ==> (#[trigger] triggers@[t]).steps.len() > 0,
                forall|x: int, y: int| 0 <= x < a && 0 <= y < tv.len() && x != y ==> (#[trigger] tv[x]).name != (#[trigger] tv[y]).name,
            decreases triggers.len() - a,
        {
            let mut b: usize = 0;
            while b < triggers.len()
                invariant
                    a < triggers.len(),
                    tv == trigger_views(triggers@),
                    forall|t: int| 0 <= t < triggers.len() ==> (#[trigger] triggers@[t]).steps.len() > 0,
                    forall|x: int, y: int| 0 <= x < a && 0 <= y < tv.len() && x != y ==> (#[trigger] tv[x]).name != (#[trigger] tv[y]).name,
                    forall|y: int| 0 <= y < b && a != y ==> tv[a as int].name != (#[trigger] tv[y]).name,
                decreases triggers.len() - b,
            {
                if a != b && str_equal(triggers[a].name.as_str(), triggers[b].name.as_str()) {
                    assert(tv[a as int].name == tv[b as int].name);
                    return Err(ConfigError::DuplicateTrigger);
                }
                b = b + 1;
            }
            a = a + 1;
        }
        let e = Engine { triggers, states: Vec::new() };
        assert(e@.states =~= Seq::<InstanceView>::empty());
        Ok(e)
    }

    /// The index of the live state for trigger `ti` and `key`.
    fn find(&self, ti: usize, key: &Vec<String>) -> (r: Option<usize>)
        ensures
            match r {
                Some(i) => find_from(self@.states, ti as int, str_views(key@), 0) == Some(i as int),
                None => find_from(self@.states, ti as int, str_views(key@), 0) is None,
            },
    {
        let mut i: usize = 0;
        while i < self.states.len()
            invariant
                i <= self.states.len(),
                find_from(self@.states, ti as int, str_views(key@), 0) == find_from(
                    self@.states,
                    ti as int,
                    str_views(key@),
                    i as int,
                ),
            decreases self.states.len() - i,
        {
            assert(self@.states[i as int] == self.states@[i as int]@);
            if self.states[i].trigger == ti && strs_equal(&self.states[i].key, key) {
                return Some(i);
            }
            i = i + 1;
        }
        None
    }

    /// The number of live states.
    pub fn state_count(&self) -> (r: usize)
        ensures
            r == self@.states.len(),
    {
        self.states.len()
    }

    /// Offers a matched line to trigger `ti`.
    fn advance(&mut self, ti: usize, m: &MatchedLine, now: u64, out: &mut Vec<Outcome>)
        requires
            old(self).wf(),
            ti < old(self)@.triggers.len(),
        ensures
            final(self).wf(),
            final(self)@.triggers == old(self)@.triggers,
            ({
                let (s, o) = advance_spec(
                    old(self)@.triggers[ti as int],
                    ti as int,
                    old(self)@.states,
                    m@.rule,
                    m@.fields,
                    now,
                );
                final(self)@.states == s && outcome_views(final(out)@) == outcome_views(old(out)@) + o
            }),
    {
        let ghost tv = self@.triggers;
        let ghost sv = self@.states;
        proof {
            lemma_advance_wf(tv, ti as int, sv, m@.rule, m@.fields, now);
        }
        let t = &self.triggers[ti];
        assert(tv[ti as int] == t@);
        let key = match key_for(t, &m.fields) {
            Some(k) => k,
            None => {
                assert(outcome_views(out@) =~= outcome_views(out@) + Seq::<OutcomeView>::empty());
                return ;
            },
        };
        match self.find(ti, &key) {
            None => {
                assert(t@.steps[0] == t.steps@[0]@);
                if str_equal(t.steps[0].rule.as_str(), m.rule.as_str()) {
                    let bound = bind_fields(&t.init, &m.fields, &t.steps, 1);
                    if t.steps.len() == 1 {
                        let o = Outcome::Alert { trigger: t.name.clone(), key, bound };
                        proof {
                            lemma_outcomes_push(out@, o);
                        }
                        out.push(o);
                        assert(seq![o@] =~= Seq::empty().push(o@));
                    } else {
                        let st = Instance {
                            trigger: ti,
                            key,
                            step: 1,
                            bound,
                            created_at: now,
                            last_advanced_at: now,
                        };
                        self.states.push(st);
                        assert(self@.states =~= sv.push(st@));
                    }
                }
                assert(outcome_views(out@) =~= outcome_views(old(out)@) + advance_spec(tv[ti as int], ti as int, sv, m@.rule, m@.fields, now).1);
            },
            Some(i) => {
                proof {
                    lemma_find_some(sv, ti as int, str_views(key@), 0, i as int);
                }
                assert(sv[i as int] == self.states@[i as int]@);
                let st = self.states[i].step;
                assert(instance_wf(tv, sv[i as int]));
                assert(st < t.steps.len());
                assert(t@.steps[st as int] == t.steps@[st as int]@);
                if str_equal(t.steps[st].rule.as_str(), m.rule.as_str()) && check_constraints(
                    &t.steps[st].constraints,
                    &self.states[i].bound,
                    &m.fields,
                ) {
                    let bound = bind_fields(&self.states[i].bound, &m.fields, &t.steps, st + 1);
                    let old_st = self.states.remove(i);
                    if st + 1 == t.steps.len() {
                        assert(self@.states =~= sv.remove(i as int));
                        let o = Outcome::Alert { trigger: t.name.clone(), key, bound };
                        proof {
                            lemma_outcomes_push(out@, o);
                        }
                        out.push(o);
                        assert(seq![o@] =~= Seq::empty().push(o@));
                    } else {
                        let ns = Instance {
                            trigger: ti,
                            key,
                            step: st + 1,
                            bound,
                            created_at: old_st.created_at,
                            last_advanced_at: now,
                        };
                        self.states.insert(i, ns);
                        assert(self@.states =~= sv.update(i as int, ns@));
                    }
                }
                assert(outcome_views(out@) =~= outcome_views(old(out)@) + advance_spec(tv[ti as int], ti as int, sv, m@.rule, m@.fields, now).1);
            },
        }
    }

    /// Drops every live state whose window has passed at `now`, reporting an
    /// expiry for each, in table order.
    pub fn sweep(&mut self, now: u64) -> (r: Vec<Outcome>)
        requires
            old(self).wf(),
        ensures
            final(self).wf(),
            final(self)@.triggers == old(self)@.triggers,
            (final(self)@.states, outcome_views(r@)) == sweep_spec(old(self)@.triggers, old(self)@.states, now),
    {
        let ghost tv = self@.triggers;
        let ghost sv = self@.states;
        proof {
            lemma_sweep_wf(tv, sv, now);
        }
        let mut kept: Vec<Instance> = Vec::new();
        let mut out: Vec<Outcome> = Vec::new();
        let mut i: usize = 0;
        while i < self.states.len()
            invariant
                i <= self.states.len(),
                tv == self@.triggers,
                sv == self@.states,
                table_wf(tv, sv),
                (instance_views(kept@), outcome_views(out@)) == sweep_spec(tv, sv.take(i as int), now),
            decreases self.states.len() - i,
        {
            assert(sv.take(i + 1).drop_last() =~= sv.take(i as int));
            assert(sv[i as int] == self.states@[i as int]@);
            assert(instance_wf(tv, sv[i as int]));
            let st = &self.states[i];
            let t = &self.triggers[st.trigger];
            assert(tv[st.trigger as int] == t@);
            if now > st.last_advanced_at && now - st.last_advanced_at > t.window {
                let o = Outcome::Expire { trigger: t.name.clone(), key: copy_strs(&st.key) };
                proof {
                    lemma_outcomes_push(out@, o);
                }
                out.push(o);
            } else {
                let ghost prev = kept@;
                kept.push(st.copy());
                assert(instance_views(kept@) =~= instance_views(prev).push(sv[i as int]));
            }
            i = i + 1;
        }
        assert(sv.take(i as int) =~= sv);
        self.states = kept;
        out
    }

    /// Sweeps at `now`, then offers the matched line to every trigger in
    /// order; returns the expiries, then the alerts.
    pub fn ingest(&mut self, m: &MatchedLine, now: u64) -> (r: Vec<Outcome>)
        requires
            old(self).wf(),
        ensures
            final(self).wf(),
            final(self)@.triggers == old(self)@.triggers,
            (final(self)@.states, outcome_views(r@)) == ingest_spec(
                old(self)@.triggers,
                old(self)@.states,
                m@.rule,
                m@.fields,
                now,
            ),
    {
        let ghost tv = self@.triggers;
        let mut out = self.sweep(now);
        let ghost s1 = self@.states;
        let ghost o1 = outcome_views(out@);
        let mut ti: usize = 0;
        while ti < self.triggers.len()
            invariant
                self.wf(),
                tv == self@.triggers,
                ti <= tv.len(),
                (self@.states, outcome_views(out@)) == ({
                    let (s, o) = advance_all(tv, ti as int, s1, m@.rule, m@.fields, now);
                    (s, o1 + o)
                }),
            decreases tv.len() - ti,
        {
            self.advance(ti, m, now, &mut out);
            let ghost p = advance_all(tv, ti as int, s1, m@.rule, m@.fields, now);
            let ghost q = advance_spec(tv[ti as int], ti as int, p.0, m@.rule, m@.fields, now);
            assert(o1 + (p.1 + q.1) =~= (o1 + p.1) + q.1);
            ti = ti + 1;
        }
        out
    }

    /// Drops the live state created earliest (the first such in table order)
    /// and reports it as expired; `None` when no state is live. A host that
    /// caps the table calls this while it is over its cap.
    pub fn evict_oldest(&mut self) -> (r: Option<Outcome>)
        requires
            old(self).wf(),
        ensures
            final(self).wf(),
            final(self)@.triggers == old(self)@.triggers,
            old(self)@.states.len() == 0 ==> r is None && final(self)@.states == old(self)@.states,
            old(self)@.states.len() > 0 ==> {
                let i = oldest_from(old(self)@.states, old(self)@.states.len() as int);
                let st = old(self)@.states[i];
                &&& final(self)@.states == old(self)@.states.remove(i)
                &&& r is Some
                &&& r->Some_0@ == OutcomeView::Expire { trigger: old(self)@.triggers[st.trigger].name, key: st.key }
            },
    {
        let ghost sv = self@.states;
        let ghost tv = self@.triggers;
        let n = self.states.len();
        if n == 0 {
            return None;
        }
        let mut best: usize = 0;
        let mut i: usize = 1;
        while i < n
            invariant
                n == self.states.len(),
                sv == self@.states,
                1 <= i <= n,
                best as int == oldest_from(sv, i as int),
                best < i,
            decreases n - i,
        {
            assert(sv[i as int] == self.states@[i as int]@);
            assert(sv[best as int] == self.states@[best as int]@);
            if self.states[i].created_at < self.states[best].created_at {
                best = i;
            }
            i = i + 1;
        }
        proof {
            lemma_remove_wf(tv, sv, best as int);
        }
        assert(sv[best as int] == self.states@[best as int]@);
        assert(instance_wf(tv, sv[best as int]));
        let st = self.states.remove(best);
        assert(self@.states =~= sv.remove(best as int));
        let t = &self.triggers[st.trigger];
        assert(tv[st.trigger as int] == t@);
        Some(Outcome::Expire { trigger: t.name.clone(), key: st.key })
    }
}

/// States of different key tuples progress independently: offering a line to
/// a trigger leaves every live state of another trigger or another key tuple
/// in the table unchanged, and every outcome it reports is an alert for the
/// line's own key tuple.
pub proof fn lemma_keys_independent(
    t: TriggerView,
    ti: int,
    states: Seq<InstanceView>,
    rule: Seq<char>,
    fields: Seq<(Seq<char>, Seq<char>)>,
    now: u64,
    other: InstanceView,
)
    requires
        states.contains(other),
        !(other.trigger == ti && key_of(t.keys, fields, t.init) == Some(other.key)),
    ensures
        advance_spec(t, ti, states, rule, fields, now).0.contains(other),
        forall|k: int|
            0 <= k < advance_spec(t, ti, states, rule, fields, now).1.len() ==> {
                let o = #[trigger] advance_spec(t, ti, states, rule, fields, now).1[k];
                &&& o is Alert
                &&& key_of(t.keys, fields, t.init) == Some(o->Alert_key)
                &&& o->Alert_trigger == t.name
            },
{
    let r = advance_spec(t, ti, states, rule, fields, now).0;
    let j = choose|j: int| 0 <= j < states.len() && states[j] == other;
    if let Some(key) = key_of(t.keys, fields, t.init) {
        match find_from(states, ti, key, 0) {
            None => {
                if r.len() > states.len() {
                    assert(r[j] == other);
                }
            },
            Some(i) => {
                lemma_find_some(states, ti, key, 0, i);
                assert(i != j);
                if r.len() < states.len() {
                    if j < i {
                        assert(r[j] == other);
                    } else {
                        assert(r[j - 1] == other);
                    }
                } else {
                    assert(r[j] == other);
                }
            },
        }
    }
}

/// The same over a whole pass: offering a line to every trigger in turn
/// leaves in the table each live state whose own trigger gives the line
/// another key tuple.
pub proof fn lemma_keys_independent_all(
    triggers: Seq<TriggerView>,
    n: int,
    states: Seq<InstanceView>,
    rule: Seq<char>,
    fields: Seq<(Seq<char>, Seq<char>)>,
    now: u64,
    other: InstanceView,
)
    requires
        states.contains(other),
        0 <= other.trigger < triggers.len(),
        key_of(triggers[other.trigger].keys, fields, triggers[other.trigger].init) != Some(other.key),
        n <= triggers.len(),
    ensures
        advance_all(triggers, n, states, rule, fields, now).0.contains(other),
    decreases n,
{
    if n > 0 {
        lemma_keys_independent_all(triggers, n - 1, states, rule, fields, now, other);
        let s = advance_all(triggers, n - 1, states, rule, fields, now).0;
        lemma_keys_independent(triggers[n - 1], n - 1, s, rule, fields, now, other);
    }
}

proof fn lemma_no_fresh_bindings(
    fields: Seq<(Seq<char>, Seq<char>)>,
    bound: Seq<(Seq<char>, Seq<char>)>,
    steps: Seq<StepView>,
    from: int,
)
    requires
        from >= steps.len(),
    ensures
        fresh_bindings(fields, bound, steps, from) == Seq::<(Seq<char>, Seq<char>)>::empty(),
    decreases fields.len(),
{
    if fields.len() > 0 {
        lemma_no_fresh_bindings(fields.drop_last(), bound, steps, from);
    }
}

/// A trigger of one step fires on the first line that satisfies it: the
/// table is left as it was, and the one outcome is an alert carrying the
/// values bound before the first step.
pub proof fn lemma_single_step_fires(
    triggers: Seq<TriggerView>,
    ti: int,
    states: Seq<InstanceView>,
    rule: Seq<char>,
    fields: Seq<(Seq<char>, Seq<char>)>,
    now: u64,
    key: Seq<Seq<char>>,
)
    requires
        table_wf(triggers, states),
        0 <= ti < triggers.len(),
        triggers[ti].steps.len() == 1,
        triggers[ti].steps[0].rule == rule,
        key_of(triggers[ti].keys, fields, triggers[ti].init) == Some(key),
    ensures
        advance_spec(triggers[ti], ti, states, rule, fields, now) == (
            states,
            seq![OutcomeView::Alert { trigger: triggers[ti].name, key, bound: triggers[ti].init }],
        ),
{
    let t = triggers[ti];
    if let Some(i) = find_from(states, ti, key, 0) {
        lemma_find_some(states, ti, key, 0, i);
        assert(instance_wf(triggers, states[i]));
    }
    lemma_no_fresh_bindings(fields, t.init, t.steps, 1);
    assert(bind(t.init, fields, t.steps, 1) =~= t.init);
}

/// A sweep keeps every state whose window has not passed.
proof fn lemma_sweep_keeps(triggers: Seq<TriggerView>, states: Seq<InstanceView>, now: u64, x: InstanceView)
    requires
        states.contains(x),
        !expired(triggers[x.trigger], x, now),
    ensures
        sweep_spec(triggers, states, now).0.contains(x),
    decreases states.len(),
{
    let d = states.drop_last();
    let k = sweep_spec(triggers, d, now).0;
    if states.last() == x {
        assert(k.push(x)[k.len() as int] == x);
    } else {
        let j = choose|j: int| 0 <= j < states.len() && states[j] == x;
        assert(j < states.len() - 1);
        assert(d[j] == x);
        lemma_sweep_keeps(triggers, d, now, x);
        let i = choose|i: int| 0 <= i < k.len() && k[i] == x;
        if !expired(triggers[states.last().trigger], states.last(), now) {
            assert(k.push(states.last())[i] == x);
        }
    }
}

/// `o` is the expiry of a state of the table whose window has passed.
pub open spec fn expiry_of(triggers: Seq<TriggerView>, states: Seq<InstanceView>, now: u64, o: OutcomeView) -> bool {
    exists|j: int|
        0 <= j < states.len() && expired(triggers[(#[trigger] states[j]).trigger], states[j], now) && o
            == (OutcomeView::Expire { trigger: triggers[states[j].trigger].name, key: states[j].key })
}

/// Every outcome of a sweep is the expiry of a state of the table whose
/// window had passed.
proof fn lemma_sweep_outcomes(triggers: Seq<TriggerView>, states: Seq<InstanceView>, now: u64)
    ensures
        forall|k: int|
            0 <= k < sweep_spec(triggers, states, now).1.len() ==> expiry_of(
                triggers,
                states,
                now,
                #[trigger] sweep_spec(triggers, states, now).1[k],
            ),
    decreases states.len(),
{
    if states.len() > 0 {
        let d = states.drop_last();
        lemma_sweep_outcomes(triggers, d, now);
        let o = sweep_spec(triggers, d, now).1;
        let r = sweep_spec(triggers, states, now).1;
        assert forall|k: int| 0 <= k < r.len() implies expiry_of(triggers, states, now, #[trigger] r[k]) by {
            if k < o.len() {
                assert(r[k] == o[k]);
                assert(expiry_of(triggers, d, now, o[k]));
                let j = choose|j: int|
                    0 <= j < d.len() && expired(triggers[(#[trigger] d[j]).trigger], d[j], now) && o[k]
                        == (OutcomeView::Expire { trigger: triggers[d[j].trigger].name, key: d[j].key });
                assert(states[j] == d[j]);
            } else {
                assert(states[states.len() - 1] == states.last());
            }
        }
    }
}

/// Every outcome of a pass over the first `n` triggers is an alert of one of
/// them, for the line's key tuple of that trigger.
proof fn lemma_advance_all_outcomes(
    triggers: Seq<TriggerView>,
    n: int,
    states: Seq<InstanceView>,
    rule: Seq<char>,
    fields: Seq<(Seq<char>, Seq<char>)>,
    now: u64,
)
    ensures
        forall|k: int|
            0 <= k < advance_all(triggers, n, states, rule, fields, now).1.len() ==> exists|ti: int|
                0 <= ti < n && {
                    let o = #[trigger] advance_all(triggers, n, states, rule, fields, now).1[k];
                    &&& o is Alert
                    &&& o->Alert_trigger == (#[trigger] triggers[ti]).name
                    &&& key_of(triggers[ti].keys, fields, triggers[ti].init) == Some(o->Alert_key)
                },
    decreases n,
{
    if n > 0 {
        lemma_advance_all_outcomes(triggers, n - 1, states, rule, fields, now);
        let (s, o) = advance_all(triggers, n - 1, states, rule, fields, now);
        let o2 = advance_spec(triggers[n - 1], n - 1, s, rule, fields, now).1;
        let r = advance_all(triggers, n, states, rule, fields, now).1;
        assert forall|k: int| 0 <= k < r.len() implies exists|ti: int|
            0 <= ti < n && {
                let o = #[trigger] r[k];
                &&& o is Alert
                &&& o->Alert_trigger == (#[trigger] triggers[ti]).name
                &&& key_of(triggers[ti].keys, fields, triggers[ti].init) == Some(o->Alert_key)
            } by {
            if k < o.len() {
                assert(r[k] == o[k]);
            } else {
                assert(r[k] == o2[k - o.len()]);
                assert(o2.len() == 1);
            }
        }
    }
}

/// States of different key tuples progress independently through a whole
/// ingest: a live state whose window has not passed, and whose own trigger
/// gives the line another key tuple, stays in the table as it was, and no
/// alert or expiry for its trigger and key tuple is reported.
pub proof fn lemma_ingest_keys_independent(
    triggers: Seq<TriggerView>,
    states: Seq<InstanceView>,
    rule: Seq<char>,
    fields: Seq<(Seq<char>, Seq<char>)>,
    now: u64,
    other: InstanceView,
)
    requires
        table_wf(triggers, states),
        states.contains(other),
        !expired(triggers[other.trigger], other, now),
        key_of(triggers[other.trigger].keys, fields, triggers[other.trigger].init) != Some(other.key),
    ensures
        ingest_spec(triggers, states, rule, fields, now).0.contains(other),
        forall|k: int|
            0 <= k < ingest_spec(triggers, states, rule, fields, now).1.len() ==> {
                let o = #[trigger] ingest_spec(triggers, states, rule, fields, now).1[k];
                &&& o != (OutcomeView::Expire { trigger: triggers[other.trigger].name, key: other.key })
                &&& !(o is Alert && o->Alert_trigger == triggers[other.trigger].name && o->Alert_key
                    == other.key)
            },
{
    let ix = choose|j: int| 0 <= j < states.len() && states[j] == other;
    assert(instance_wf(triggers, states[ix]));
    let (s1, o1) = sweep_spec(triggers, states, now);
    lemma_sweep_keeps(triggers, states, now, other);
    lemma_keys_independent_all(triggers, triggers.len() as int, s1, rule, fields, now, other);
    lemma_sweep_outcomes(triggers, states, now);
    lemma_advance_all_outcomes(triggers, triggers.len() as int, s1, rule, fields, now);
    let o2 = advance_all(triggers, triggers.len() as int, s1, rule, fields, now).1;
    let r = ingest_spec(triggers, states, rule, fields, now).1;
    let name = triggers[other.trigger].name;
    assert forall|k: int| 0 <= k < r.len() implies {
        let o = #[trigger] r[k];
        &&& o != (OutcomeView::Expire { trigger: name, key: other.key })
        &&& !(o is Alert && o->Alert_trigger == name && o->Alert_key == other.key)
    } by {
        if k < o1.len() {
            assert(r[k] == o1[k]);
            assert(expiry_of(triggers, states, now, o1[k]));
            let iy = choose|j: int|
                0 <= j < states.len() && expired(triggers[(#[trigger] states[j]).trigger], states[j], now) && o1[k]
                    == (OutcomeView::Expire { trigger: triggers[states[j].trigger].name, key: states[j].key });
            let y = states[iy];
            assert(instance_wf(triggers, states[iy]));
            if o1[k] == (OutcomeView::Expire { trigger: name, key: other.key }) {
                assert(triggers[y.trigger].name == triggers[other.trigger].name);
                assert(y.trigger == other.trigger);
                assert(iy == ix);
            }
        } else {
            assert(r[k] == o2[k - o1.len()]);
            let ti = choose|ti: int|
                0 <= ti < triggers.len() && {
                    let o = #[trigger] o2[k - o1.len()];
                    &&& o is Alert
                    &&& o->Alert_trigger == (#[trigger] triggers[ti]).name
                    &&& key_of(triggers[ti].keys, fields, triggers[ti].init) == Some(o->Alert_key)
                };
            if o2[k - o1.len()]->Alert_trigger == name {
                assert(ti == other.trigger);
            }
        }
    }
}

/// No state kept by a sweep has a passed window.
proof fn lemma_sweep_kept_live(triggers: Seq<TriggerView>, states: Seq<InstanceView>, now: u64)
    ensures
        forall|i: int|
            0 <= i < sweep_spec(triggers, states, now).0.len() ==> !expired(
                triggers[(#[trigger] sweep_spec(triggers, states, now).0[i]).trigger],
                sweep_spec(triggers, states, now).0[i],
                now,
            ),
    decreases states.len(),
{
    if states.len() > 0 {
        lemma_sweep_kept_live(triggers, states.drop_last(), now);
        let k = sweep_spec(triggers, states.drop_last(), now).0;
        let r = sweep_spec(triggers, states, now).0;
        assert forall|i: int| 0 <= i < r.len() implies !expired(triggers[(#[trigger] r[i]).trigger], r[i], now) by {
            if i < k.len() {
                assert(r[i] == k[i]);
            }
        }
    }
}

/// A sweep reports the expiry of every state whose window has passed.
proof fn lemma_sweep_reports(triggers: Seq<TriggerView>, states: Seq<InstanceView>, now: u64, x: InstanceView)
    requires
        states.contains(x),
        expired(triggers[x.trigger], x, now),
    ensures
        sweep_spec(triggers, states, now).1.contains(
            OutcomeView::Expire { trigger: triggers[x.trigger].name, key: x.key },
        ),
    decreases states.len(),
{
    let d = states.drop_last();
    let o = sweep_spec(triggers, d, now).1;
    let e = OutcomeView::Expire { trigger: triggers[x.trigger].name, key: x.key };
    if states.last() == x {
        assert(o.push(e)[o.len() as int] == e);
    } else {
        let j = choose|j: int| 0 <= j < states.len() && states[j] == x;
        assert(d[j] == x);
        lemma_sweep_reports(triggers, d, now, x);
        let i = choose|i: int| 0 <= i < o.len() && o[i] == e;
        if expired(triggers[states.last().trigger], states.last(), now) {
            let l = states.last();
            assert(o.push(OutcomeView::Expire { trigger: triggers[l.trigger].name, key: l.key })[i] == e);
        }
    }
}

/// Expiry: when the window of a live state has passed, a sweep reports its
/// expiry and leaves no state for its trigger and key tuple; a later line
/// for that key tuple then never resumes it. Offered to the trigger, the line
/// either starts a fresh state at the second step, created when it came, or
/// (for a trigger of one step) fires, or leaves no state at all.
pub proof fn lemma_expiry_then_fresh(
    triggers: Seq<TriggerView>,
    states: Seq<InstanceView>,
    now: u64,
    x: InstanceView,
    rule: Seq<char>,
    fields: Seq<(Seq<char>, Seq<char>)>,
    later: u64,
)
    requires
        table_wf(triggers, states),
        states.contains(x),
        expired(triggers[x.trigger], x, now),
        key_of(triggers[x.trigger].keys, fields, triggers[x.trigger].init) == Some(x.key),
    ensures
        sweep_spec(triggers, states, now).1.contains(
            OutcomeView::Expire { trigger: triggers[x.trigger].name, key: x.key },
        ),
        forall|i: int|
            0 <= i < sweep_spec(triggers, states, now).0.len() ==> !(
            (#[trigger] sweep_spec(triggers, states, now).0[i]).trigger == x.trigger
                && sweep_spec(triggers, states, now).0[i].key == x.key),
        ({
            let s2 = advance_spec(
                triggers[x.trigger],
                x.trigger,
                sweep_spec(triggers, states, now).0,
                rule,
                fields,
                later,
            ).0;
            forall|i: int|
                0 <= i < s2.len() && (#[trigger] s2[i]).trigger == x.trigger && s2[i].key == x.key ==> s2[i]
                    == (InstanceView {
                    trigger: x.trigger,
                    key: x.key,
                    step: 1,
                    bound: bind(triggers[x.trigger].init, fields, triggers[x.trigger].steps, 1),
                    created_at: later,
                    last_advanced_at: later,
                })
        }),
{
    let s1 = sweep_spec(triggers, states, now).0;
    lemma_sweep_reports(triggers, states, now, x);
    lemma_sweep_kept(triggers, states, now);
    lemma_sweep_kept_live(triggers, states, now);
    let ix = choose|j: int| 0 <= j < states.len() && states[j] == x;
    assert forall|i: int| 0 <= i < s1.len() implies !((#[trigger] s1[i]).trigger == x.trigger && s1[i].key
        == x.key) by {
        if s1[i].trigger == x.trigger && s1[i].key == x.key {
            assert(states.contains(s1[i]));
            let j = choose|j: int| 0 <= j < states.len() && states[j] == s1[i];
            assert(j == ix);
        }
    }
    if let Some(i) = find_from(s1, x.trigger, x.key, 0) {
        lemma_find_some(s1, x.trigger, x.key, 0, i);
    }
}

/// The outcomes of a pass over fewer triggers begin the outcomes of a pass
/// over more.
proof fn lemma_advance_all_prefix(
    triggers: Seq<TriggerView>,
    n: int,
    m: int,
    states: Seq<InstanceView>,
    rule: Seq<char>,
    fields: Seq<(Seq<char>, Seq<char>)>,
    now: u64,
)
    requires
        0 <= n <= m,
    ensures
        advance_all(triggers, n, states, rule, fields, now).1.len() <= advance_all(triggers, m, states, rule, fields, now).1.len(),
        advance_all(triggers, m, states, rule, fields, now).1.subrange(
            0,
            advance_all(triggers, n, states, rule, fields, now).1.len() as int,
        ) == advance_all(triggers, n, states, rule, fields, now).1,
    decreases m - n,
{
    let a = advance_all(triggers, n, states, rule, fields, now).1;
    if n < m {
        lemma_advance_all_prefix(triggers, n, m - 1, states, rule, fields, now);
        let b = advance_all(triggers, m - 1, states, rule, fields, now).1;
        let c = advance_all(triggers, m, states, rule, fields, now).1;
        assert(c.subrange(0, b.len() as int) =~= b);
        assert(c.subrange(0, a.len() as int) =~= b.subrange(0, a.len() as int));
    } else {
        assert(a.subrange(0, a.len() as int) =~= a);
    }
}

/// Every outcome that a pass over the first `m` triggers reports beyond
/// those of the first `n` is an alert of a trigger from index `n` on.
proof fn lemma_advance_all_tail(
    triggers: Seq<TriggerView>,
    n: int,
    m: int,
    states: Seq<InstanceView>,
    rule: Seq<char>,
    fields: Seq<(Seq<char>, Seq<char>)>,
    now: u64,
)
    requires
        0 <= n <= m,
    ensures
        forall|k: int|
            advance_all(triggers, n, states, rule, fields, now).1.len() <= k < advance_all(
                triggers,
                m,
                states,
                rule,
                fields,
                now,
            ).1.len() ==> exists|ti: int|
                n <= ti < m && {
                    let o = #[trigger] advance_all(triggers, m, states, rule, fields, now).1[k];
                    &&& o is Alert
                    &&& o->Alert_trigger == (#[trigger] triggers[ti]).name
                },
    decreases m - n,
{
    if n < m {
        lemma_advance_all_tail(triggers, n, m - 1, states, rule, fields, now);
        lemma_advance_all_prefix(triggers, n, m - 1, states, rule, fields, now);
        let a = advance_all(triggers, n, states, rule, fields, now).1;
        let (s, b) = advance_all(triggers, m - 1, states, rule, fields, now);
        let o2 = advance_spec(triggers[m - 1], m - 1, s, rule, fields, now).1;
        let c = advance_all(triggers, m, states, rule, fields, now).1;
        assert forall|k: int| a.len() <= k < c.len() implies exists|ti: int|
            n <= ti < m && {
                let o = #[trigger] c[k];
                &&& o is Alert
                &&& o->Alert_trigger == (#[trigger] triggers[ti]).name
            } by {
            if k < b.len() {
                assert(c[k] == b[k]);
            } else {
                assert(c[k] == o2[k - b.len()]);
                assert(o2.len() == 1);
            }
        }
    }
}

/// A trigger of one step fires on the first line that satisfies it, through
/// a whole ingest: the outcomes hold its alert with the values bound before
/// the first step, that is the only alert of the trigger, and the table
/// never holds a state for it.
pub proof fn lemma_ingest_single_step(
    triggers: Seq<TriggerView>,
    states: Seq<InstanceView>,
    rule: Seq<char>,
    fields: Seq<(Seq<char>, Seq<char>)>,
    now: u64,
    ti: int,
    key: Seq<Seq<char>>,
)
    requires
        table_wf(triggers, states),
        0 <= ti < triggers.len(),
        triggers[ti].steps.len() == 1,
        triggers[ti].steps[0].rule == rule,
        key_of(triggers[ti].keys, fields, triggers[ti].init) == Some(key),
    ensures
        ingest_spec(triggers, states, rule, fields, now).1.contains(
            OutcomeView::Alert { trigger: triggers[ti].name, key, bound: triggers[ti].init },
        ),
        forall|i: int|
            0 <= i < ingest_spec(triggers, states, rule, fields, now).0.len() ==> (
            #[trigger] ingest_spec(triggers, states, rule, fields, now).0[i]).trigger != ti,
        forall|k: int, l: int|
            0 <= k < ingest_spec(triggers, states, rule, fields, now).1.len() && 0 <= l < ingest_spec(
                triggers,
                states,
                rule,
                fields,
                now,
            ).1.len() && (#[trigger] ingest_spec(triggers, states, rule, fields, now).1[k]) is Alert
                && ingest_spec(triggers, states, rule, fields, now).1[k]->Alert_trigger == triggers[ti].name
                && (#[trigger] ingest_spec(triggers, states, rule, fields, now).1[l]) is Alert
                && ingest_spec(triggers, states, rule, fields, now).1[l]->Alert_trigger == triggers[ti].name
                ==> k == l,
{
    let n = triggers.len() as int;
    let (s1, o1) = sweep_spec(triggers, states, now);
    lemma_sweep_wf(triggers, states, now);
    lemma_advance_all_wf(triggers, ti, s1, rule, fields, now);
    lemma_advance_all_wf(triggers, n, s1, rule, fields, now);
    let (s, o) = advance_all(triggers, ti, s1, rule, fields, now);
    lemma_single_step_fires(triggers, ti, s, rule, fields, now, key);
    let alert = OutcomeView::Alert { trigger: triggers[ti].name, key, bound: triggers[ti].init };
    let c = advance_all(triggers, ti + 1, s1, rule, fields, now).1;
    assert(c == o + seq![alert]);
    assert(c[o.len() as int] == alert);
    lemma_advance_all_prefix(triggers, ti + 1, n, s1, rule, fields, now);
    let all = advance_all(triggers, n, s1, rule, fields, now).1;
    assert(all.subrange(0, c.len() as int)[o.len() as int] == alert);
    assert(all[o.len() as int] == alert);
    let r = ingest_spec(triggers, states, rule, fields, now).1;
    assert(r[(o1.len() + o.len()) as int] == alert);
    lemma_sweep_outcomes(triggers, states, now);
    lemma_advance_all_outcomes(triggers, ti, s1, rule, fields, now);
    lemma_advance_all_prefix(triggers, ti, n, s1, rule, fields, now);
    lemma_advance_all_tail(triggers, ti + 1, n, s1, rule, fields, now);
    let pos = o1.len() + o.len();
    assert forall|k: int|
        0 <= k < r.len() && (#[trigger] r[k]) is Alert && r[k]->Alert_trigger == triggers[ti].name implies k
        == pos by {
        if k < o1.len() {
            assert(r[k] == o1[k]);
            assert(expiry_of(triggers, states, now, o1[k]));
        } else {
            let k2 = k - o1.len();
            assert(r[k] == all[k2]);
            if k2 < o.len() {
                assert(all.subrange(0, o.len() as int)[k2] == all[k2]);
                assert(all[k2] == o[k2]);
                let tj = choose|tj: int|
                    0 <= tj < ti && {
                        let x = #[trigger] o[k2];
                        &&& x is Alert
                        &&& x->Alert_trigger == (#[trigger] triggers[tj]).name
                        &&& key_of(triggers[tj].keys, fields, triggers[tj].init) == Some(x->Alert_key)
                    };
                assert(triggers[tj].name != triggers[ti].name);
            } else if k2 > o.len() {
                let tj = choose|tj: int|
                    ti + 1 <= tj < n && {
                        let x = #[trigger] all[k2];
                        &&& x is Alert
                        &&& x->Alert_trigger == (#[trigger] triggers[tj]).name
                    };
                assert(triggers[tj].name != triggers[ti].name);
            }
        }
    }
    let st = ingest_spec(triggers, states, rule, fields, now).0;
    assert forall|i: int| 0 <= i < st.len() implies (#[trigger] st[i]).trigger != ti by {
        assert(instance_wf(triggers, st[i]));
    }
}

/// Where a state of the table after offering a line to trigger `ti` comes
/// from: it was in the table before, or it is the trigger's state for the
/// line's key tuple, either fresh or advanced from one that was there.
proof fn lemma_advance_origin(
    t: TriggerView,
    ti: int,
    states: Seq<InstanceView>,
    rule: Seq<char>,
    fields: Seq<(Seq<char>, Seq<char>)>,
    now: u64,
)
    ensures
        forall|a: int|
            0 <= a < advance_spec(t, ti, states, rule, fields, now).0.len() ==> {
                let y = #[trigger] advance_spec(t, ti, states, rule, fields, now).0[a];
                states.contains(y) || (y.trigger == ti && key_of(t.keys, fields, t.init) == Some(y.key) && (
                (y.step == 1 && y.created_at == now && y.last_advanced_at == now) || find_from(
                    states,
                    ti,
                    y.key,
                    0,
                ) is Some))
            },
{
    let r = advance_spec(t, ti, states, rule, fields, now).0;
    if let Some(key) = key_of(t.keys, fields, t.init) {
        match find_from(states, ti, key, 0) {
            None => {
                assert forall|a: int| 0 <= a < r.len() && a < states.len() implies states.contains(
                    #[trigger] r[a],
                ) by {
                    assert(r[a] == states[a]);
                }
            },
            Some(i) => {
                lemma_find_some(states, ti, key, 0, i);
                assert forall|a: int| 0 <= a < r.len() && (r.len() < states.len() || a != i) implies states.contains(
                    #[trigger] r[a],
                ) by {
                    if r.len() < states.len() {
                        if a >= i {
                            assert(r[a] == states[a + 1]);
                        } else {
                            assert(r[a] == states[a]);
                        }
                    } else {
                        assert(r[a] == states[a]);
                    }
                }
            },
        }
    } else {
        assert forall|a: int| 0 <= a < r.len() implies states.contains(#[trigger] r[a]) by {
            assert(r[a] == states[a]);
        }
    }
}

/// A state with a given trigger and key tuple that is fresh at `now`.
pub open spec fn fresh_at(y: InstanceView, now: u64) -> bool {
    y.step == 1 && y.created_at == now && y.last_advanced_at == now
}

proof fn lemma_advance_all_fresh(
    triggers: Seq<TriggerView>,
    n: int,
    states: Seq<InstanceView>,
    rule: Seq<char>,
    fields: Seq<(Seq<char>, Seq<char>)>,
    now: u64,
    ti: int,
    key: Seq<Seq<char>>,
)
    requires
        0 <= ti,
        forall|a: int| 0 <= a < states.len() ==> !((#[trigger] states[a]).trigger == ti && states[a].key == key),
    ensures
        forall|a: int|
            0 <= a < advance_all(triggers, n, states, rule, fields, now).0.len() ==> {
                let y = #[trigger] advance_all(triggers, n, states, rule, fields, now).0[a];
                y.trigger == ti && y.key == key ==> n > ti && fresh_at(y, now)
            },
    decreases n,
{
    if n > 0 {
        lemma_advance_all_fresh(triggers, n - 1, states, rule, fields, now, ti, key);
        let s = advance_all(triggers, n - 1, states, rule, fields, now).0;
        let r = advance_all(triggers, n, states, rule, fields, now).0;
        lemma_advance_origin(triggers[n - 1], n - 1, s, rule, fields, now);
        assert forall|a: int| 0 <= a < r.len() implies {
            let y = #[trigger] r[a];
            y.trigger == ti && y.key == key ==> n > ti && fresh_at(y, now)
        } by {
            let y = r[a];
            if y.trigger == ti && y.key == key {
                if s.contains(y) {
                    let j = choose|j: int| 0 <= j < s.len() && s[j] == y;
                    assert(s[j] == y);
                } else if let Some(i) = find_from(s, ti, key, 0) {
                    lemma_find_some(s, ti, key, 0, i);
                    assert(s[i].trigger == ti);
                }
            }
        }
    }
}

/// Expiry, over a whole ingest: once a table holds no state for trigger
/// `ti` and key tuple `key` (as after the sweep that expired it), an ingest
/// never resumes one. Every state it leaves for that trigger and key tuple
/// is fresh: at the second step, created and advanced at the ingest's time.
pub proof fn lemma_ingest_no_resume(
    triggers: Seq<TriggerView>,
    states: Seq<InstanceView>,
    rule: Seq<char>,
    fields: Seq<(Seq<char>, Seq<char>)>,
    now: u64,
    ti: int,
    key: Seq<Seq<char>>,
)
    requires
        0 <= ti,
        forall|a: int| 0 <= a < states.len() ==> !((#[trigger] states[a]).trigger == ti && states[a].key == key),
    ensures
        forall|a: int|
            0 <= a < ingest_spec(triggers, states, rule, fields, now).0.len() ==> {
                let y = #[trigger] ingest_spec(triggers, states, rule, fields, now).0[a];
                y.trigger == ti && y.key == key ==> fresh_at(y, now)
            },
{
    let s1 = sweep_spec(triggers, states, now).0;
    lemma_sweep_kept(triggers, states, now);
    assert forall|a: int| 0 <= a < s1.len() implies !((#[trigger] s1[a]).trigger == ti && s1[a].key == key) by {
        assert(states.contains(s1[a]));
        let j = choose|j: int| 0 <= j < states.len() && states[j] == s1[a];
        assert(states[j] == s1[a]);
    }
    lemma_advance_all_fresh(triggers, triggers.len() as int, s1, rule, fields, now, ti, key);
}

} // verus!
