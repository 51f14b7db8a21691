//! Paths into the value tree.
//!
//! A path is a sequence of steps, each an index into a list or a key into a
//! dictionary. Resolving a path walks the steps from the left, starting at a
//! root. The walk stops at the first step that cannot be taken, and the
//! error tells where that was and why: which steps had been taken, what
//! they led to, and which step could not be applied.

use crate::decimal::{decimal, push_decimal};
use crate::tree::{lemma_position_of, lemma_position_of_is, position_of, Entry, Node};
use crate::values::{entries_of, models, position_in, Dict, List, Text, Value};
use vstd::prelude::*;
use vstd::slice::slice_subrange;
use vstd::std_specs::convert::FromSpecImpl;
use vstd::string::StringExecFns;

verus! {

/// The three kinds of value.
#[derive(Clone, Copy, Debug, PartialEq, Eq, Structural)]
pub enum Kind {
    /// Text.
    Text,
    /// A list.
    List,
    /// A dictionary.
    Dict,
}

/// What a path led to when it could not be resolved.
#[derive(Clone, Copy, Debug, PartialEq, Eq, Structural)]
pub enum Have {
    /// A value of a kind to which the next step does not apply: an index
    /// asks for a list, a key for a dictionary.
    Mismatch(Kind),
    /// A list with no item at the index of the next step.
    ListTooShort,
    /// A dictionary with no entry under the key of the next step.
    DictMissingKey,
    /// Every step was taken, and the value at the end is of another kind
    /// than the caller asked for.
    Wrong { found: Kind, wanted: Kind },
}

/// A single step of a path.
#[derive(Debug, Clone, Copy, PartialEq, Eq)]
pub enum PathStep {
    /// An index into a list.
    List(usize),
    /// The key into a dictionary.
    Dict(&'static str),
}

/// What a step is.
pub enum Step {
    /// An index into a list.
    Index(nat),
    /// The key into a dictionary.
    Key(Seq<char>),
}

/// What an error of path resolution holds.
pub struct Failure {
    /// The steps that were taken.
    pub good: Seq<Step>,
    /// What they led to.
    pub have: Have,
    /// The step that could not be applied, if it was a step that failed.
    pub fail: Option<Step>,
}

impl View for PathStep {
    type V = Step;

    open spec fn view(&self) -> Step {
        match self {
            PathStep::List(index) => Step::Index(*index as nat),
            PathStep::Dict(key) => Step::Key(key@),
        }
    }
}

/// What a sequence of steps is.
pub open spec fn steps_of(steps: Seq<PathStep>) -> Seq<Step> {
    Seq::new(steps.len(), |i: int| steps[i]@)
}

impl From<usize> for PathStep {
    /// The step to the item at `value`.
    fn from(value: usize) -> (r: Self) {
        PathStep::List(value)
    }
}

impl FromSpecImpl<usize> for PathStep {
    open spec fn obeys_from_spec() -> bool {
        true
    }

    open spec fn from_spec(value: usize) -> Self {
        PathStep::List(value)
    }
}

impl From<&'static str> for PathStep {
    /// The step to the value under `value`.
    fn from(value: &'static str) -> (r: Self) {
        PathStep::Dict(value)
    }
}

impl FromSpecImpl<&'static str> for PathStep {
    open spec fn obeys_from_spec() -> bool {
        true
    }

    open spec fn from_spec(value: &'static str) -> Self {
        PathStep::Dict(value)
    }
}

/// A step as it is shown: an index between square brackets, a key behind a
/// dot.
pub open spec fn step_text(step: Step) -> Seq<char> {
    match step {
        Step::Index(index) => seq!['['] + decimal(index) + seq![']'],
        Step::Key(key) => seq!['.'] + key,
    }
}

/// Steps as they are shown, one behind the other.
pub open spec fn rendered(steps: Seq<Step>) -> Seq<char>
    decreases steps.len(),
{
    if steps.len() == 0 {
        Seq::empty()
    } else {
        rendered(steps.drop_last()) + step_text(steps.last())
    }
}

/// The name of a kind of value.
pub open spec fn kind_name(kind: Kind) -> Seq<char> {
    match kind {
        Kind::Text => "Text"@,
        Kind::List => "List"@,
        Kind::Dict => "Dict"@,
    }
}

/// What a path led to, in words.
pub open spec fn have_text(have: Have) -> Seq<char> {
    match have {
        Have::Mismatch(kind) => kind_name(kind),
        Have::ListTooShort => "List too short"@,
        Have::DictMissingKey => "Dict missing key"@,
        Have::Wrong { found, wanted } => kind_name(found) + " (not "@ + kind_name(wanted) + ")"@,
    }
}

impl Failure {
    /// The text of the diagnostic: the steps that were taken, what they led
    /// to, and the step that could not be applied.
    pub open spec fn message(self) -> Seq<char> {
        "Path `"@ + rendered(self.good) + "` leads to "@ + have_text(self.have) + match self.fail {
            Some(step) => ", can't apply step `"@ + step_text(step) + "`"@,
            None => Seq::empty(),
        } + "."@
    }
}

/// The kind of a value.
pub open spec fn kind_of(node: Node) -> Kind {
    match node {
        Node::Text { .. } => Kind::Text,
        Node::List { .. } => Kind::List,
        Node::Dict { .. } => Kind::Dict,
    }
}

/// One step down from `node`: the item at the index, or the value under the
/// key; or what stands against the step.
pub open spec fn step_into(node: Node, step: Step) -> Result<Node, Have> {
    match node {
        Node::Text { .. } => Err(Have::Mismatch(Kind::Text)),
        Node::List { items, .. } => match step {
            Step::Index(index) => if index < items.len() {
                Ok(items[index as int])
            } else {
                Err(Have::ListTooShort)
            },
            Step::Key(_) => Err(Have::Mismatch(Kind::List)),
        },
        Node::Dict { entries, .. } => match step {
            Step::Key(key) => if position_of(entries, key) < entries.len() {
                Ok(entries[position_of(entries, key)].value)
            } else {
                Err(Have::DictMissingKey)
            },
            Step::Index(_) => Err(Have::Mismatch(Kind::Dict)),
        },
    }
}

/// `node` with the child that `step` leads to replaced by `child`. Where the
/// step cannot be taken, `node` as it is.
pub open spec fn with_child(node: Node, step: Step, child: Node) -> Node {
    match node {
        Node::Text { .. } => node,
        Node::List { items, prolog, epilog } => match step {
            Step::Index(index) => if index < items.len() {
                Node::List { items: items.update(index as int, child), prolog, epilog }
            } else {
                node
            },
            Step::Key(_) => node,
        },
        Node::Dict { entries, prolog, epilog } => match step {
            Step::Key(key) => {
                let at = position_of(entries, key);
                if at < entries.len() {
                    Node::Dict {
                        entries: entries.update(at, Entry { value: child, ..entries[at] }),
                        prolog,
                        epilog,
                    }
                } else {
                    node
                }
            },
            Step::Index(_) => node,
        },
    }
}

/// The value that the steps from `from` on lead to, starting at `node`; or
/// where and why the walk stopped.
pub open spec fn resolve_from(node: Node, steps: Seq<Step>, from: int) -> Result<Node, Failure>
    decreases steps.len() - from,
{
    if from < 0 || from >= steps.len() {
        Ok(node)
    } else {
        match step_into(node, steps[from]) {
            Ok(child) => resolve_from(child, steps, from + 1),
            Err(have) => Err(Failure { good: steps.take(from), have, fail: Some(steps[from]) }),
        }
    }
}

/// The value that `steps` lead to, starting at `root`; or where and why the
/// walk stopped.
pub open spec fn resolve(root: Node, steps: Seq<Step>) -> Result<Node, Failure> {
    resolve_from(root, steps, 0)
}

/// `node` with the value that the steps from `from` on lead to replaced by
/// `new`. Where the steps cannot be taken, `node` as it is.
pub open spec fn graft_from(node: Node, steps: Seq<Step>, from: int, new: Node) -> Node
    decreases steps.len() - from,
{
    if from < 0 || from >= steps.len() {
        new
    } else {
        match step_into(node, steps[from]) {
            Ok(child) => with_child(node, steps[from], graft_from(child, steps, from + 1, new)),
            Err(_) => node,
        }
    }
}

/// `root` with the value that `steps` lead to replaced by `new`.
pub open spec fn graft(root: Node, steps: Seq<Step>, new: Node) -> Node {
    graft_from(root, steps, 0, new)
}

/// What resolution gives to a caller who asked for a value of the kind
/// `wanted`: the value where it is of that kind, and an error that holds all
/// the steps where it is of another.
pub open spec fn expect(found: Result<Node, Failure>, wanted: Kind, steps: Seq<Step>) -> Result<
    Node,
    Failure,
> {
    match found {
        Ok(node) => if kind_of(node) == wanted {
            Ok(node)
        } else {
            Err(Failure { good: steps, have: Have::Wrong { found: kind_of(node), wanted }, fail: None })
        },
        Err(failure) => Err(failure),
    }
}

/// A step that can be taken leads to the child that `with_child` replaces:
/// putting the child back changes nothing, and a new child is found again by
/// the same step.
pub proof fn lemma_with_child(node: Node, step: Step, child: Node)
    requires
        step_into(node, step) is Ok,
    ensures
        with_child(node, step, step_into(node, step)->Ok_0) == node,
        step_into(with_child(node, step, child), step) == Ok::<Node, Have>(child),
        kind_of(with_child(node, step, child)) == kind_of(node),
{
    match node {
        Node::Text { .. } => {},
        Node::List { items, prolog, epilog } => {
            let index = step->Index_0 as int;
            assert(items.update(index, items[index]) =~= items);
        },
        Node::Dict { entries, prolog, epilog } => {
            let key = step->Key_0;
            lemma_position_of(entries, key);
            let at = position_of(entries, key);
            assert(entries.update(at, Entry { value: entries[at].value, ..entries[at] })
                =~= entries);
            let after = entries.update(at, Entry { value: child, ..entries[at] });
            assert forall|j: int| 0 <= j < at implies (#[trigger] after[j]).key != key by {
                assert(after[j] == entries[j]);
            }
            lemma_position_of_is(after, key, at);
        },
    }
}

/// An edit that changes nothing. Putting back the value that a path leads
/// to gives the tree as it was, and so the same bytes when it is written.
pub proof fn lemma_graft_same(root: Node, steps: Seq<Step>, from: int)
    requires
        0 <= from <= steps.len(),
        resolve_from(root, steps, from) is Ok,
    ensures
        graft_from(root, steps, from, resolve_from(root, steps, from)->Ok_0) == root,
    decreases steps.len() - from,
{
    if from < steps.len() {
        let child = step_into(root, steps[from])->Ok_0;
        lemma_graft_same(child, steps, from + 1);
        lemma_with_child(root, steps[from], child);
    }
}

/// What is put where a path leads to is what the path leads to afterwards.
pub proof fn lemma_resolve_graft(root: Node, steps: Seq<Step>, from: int, new: Node)
    requires
        0 <= from <= steps.len(),
        resolve_from(root, steps, from) is Ok,
    ensures
        resolve_from(graft_from(root, steps, from, new), steps, from) == Ok::<Node, Failure>(new),
    decreases steps.len() - from,
{
    if from < steps.len() {
        let child = step_into(root, steps[from])->Ok_0;
        lemma_resolve_graft(child, steps, from + 1, new);
        lemma_with_child(root, steps[from], graft_from(child, steps, from + 1, new));
    }
}

/// An error of path resolution.
#[derive(Debug, Clone, Copy)]
pub struct PathErr {
    good: &'static [PathStep],
    have: Have,
    fail: Option<&'static PathStep>,
}

impl View for PathErr {
    type V = Failure;

    closed spec fn view(&self) -> Failure {
        Failure {
            good: steps_of(self.good@),
            have: self.have,
            fail: match self.fail {
                Some(step) => Some(step@),
                None => None,
            },
        }
    }
}

impl PathErr {
    /// The error of a step that could not be applied: the steps `good` led
    /// to `have`, against which `fail` stands.
    pub fn some(good: &'static [PathStep], have: Have, fail: &'static PathStep) -> (r: Self)
        ensures
            r@ == (Failure { good: steps_of(good@), have, fail: Some(fail@) }),
    {
        PathErr { good, have, fail: Some(fail) }
    }

    /// The error of a path that was walked to its end: the steps `good` led
    /// to `have`.
    pub fn none(good: &'static [PathStep], have: Have) -> (r: Self)
        ensures
            r@ == (Failure { good: steps_of(good@), have, fail: None }),
    {
        PathErr { good, have, fail: None }
    }

    /// The steps that were taken.
    pub fn good(&self) -> (r: &'static [PathStep])
        ensures
            steps_of(r@) == self@.good,
    {
        self.good
    }

    /// What the steps led to.
    pub fn have(&self) -> (r: Have)
        ensures
            r == self@.have,
    {
        self.have
    }

    /// The step that could not be applied, if it was a step that failed.
    pub fn fail(&self) -> (r: Option<&'static PathStep>)
        ensures
            match r {
                Some(step) => self@.fail == Some(step@),
                None => self@.fail is None,
            },
    {
        self.fail
    }
}

/// One or more steps.
#[derive(Debug, Clone, Copy)]
pub struct Path {
    steps: &'static [PathStep],
}

impl View for Path {
    type V = Seq<Step>;

    closed spec fn view(&self) -> Seq<Step> {
        steps_of(self.steps@)
    }
}

/// The child of `value` that `step` leads to, or what stands against the
/// step.
fn child<'v, 'a>(value: &'v Value<'a>, step: &PathStep) -> (r: Result<&'v Value<'a>, Have>)
    ensures
        match r {
            Ok(v) => step_into(value@, step@) == Ok::<Node, Have>(v@),
            Err(have) => step_into(value@, step@) == Err::<Node, Have>(have),
        },
{
    proof {
        value.lemma_model();
    }
    match value {
        Value::Text(_) => Err(Have::Mismatch(Kind::Text)),
        Value::List(list) => match step {
            PathStep::List(index) => if *index < list.vec.len() {
                Ok(&list.vec[*index])
            } else {
                Err(Have::ListTooShort)
            },
            PathStep::Dict(_) => Err(Have::Mismatch(Kind::List)),
        },
        Value::Dict(dict) => match step {
            PathStep::Dict(key) => match position_in(&dict.vec, key) {
                Some(at) => Ok(&dict.vec[at].value),
                None => Err(Have::DictMissingKey),
            },
            PathStep::List(_) => Err(Have::Mismatch(Kind::Dict)),
        },
    }
}

/// Walks the steps from `from` on, starting at `value`, to a value that can
/// be changed in place.
fn walk_mut<'v, 'a>(value: &'v mut Value<'a>, steps: &'static [PathStep], from: usize) -> (r:
    Result<&'v mut Value<'a>, PathErr>)
    requires
        from <= steps@.len(),
    ensures
        match r {
            Ok(v) => resolve_from(old(value)@, steps_of(steps@), from as int) == Ok::<
                Node,
                Failure,
            >(v@) && final(value)@ == graft_from(
                old(value)@,
                steps_of(steps@),
                from as int,
                final(v)@,
            ),
            Err(e) => resolve_from(old(value)@, steps_of(steps@), from as int) == Err::<
                Node,
                Failure,
            >(e@) && final(value)@ == old(value)@,
        },
    decreases steps@.len() - from,
{
    if from >= steps.len() {
        return Ok(value);
    }
    let ghost all = steps_of(steps@);
    let ghost before = *old(value);
    let ghost after = *final(value);
    let step = &steps[from];
    proof {
        before.lemma_model();
        after.lemma_model();
        assert(all[from as int] == step@);
    }
    match value {
        Value::Text(_) => {
            let good = slice_subrange(steps, 0, from);
            assert(steps_of(good@) =~= all.take(from as int));
            Err(PathErr::some(good, Have::Mismatch(Kind::Text), step))
        },
        Value::List(list) => match step {
            PathStep::List(index) => if *index < list.vec.len() {
                let ghost vec0 = list.vec;
                let ghost vec1 = final(list).vec;
                let item = &mut list.vec[*index];
                let ghost item0 = *item;
                let ghost item1 = *final(item);
                let r = walk_mut(item, steps, from + 1);
                proof {
                    assert(vec1@ == vec0@.update(*index as int, item1));
                    assert(models(vec1@) =~= models(vec0@).update(*index as int, item1@));
                    if r is Err {
                        assert(models(vec1@) =~= models(vec0@));
                    }
                }
                r
            } else {
                let good = slice_subrange(steps, 0, from);
                assert(steps_of(good@) =~= all.take(from as int));
                Err(PathErr::some(good, Have::ListTooShort, step))
            },
            PathStep::Dict(_) => {
                let good = slice_subrange(steps, 0, from);
                assert(steps_of(good@) =~= all.take(from as int));
                Err(PathErr::some(good, Have::Mismatch(Kind::List), step))
            },
        },
        Value::Dict(dict) => match step {
            PathStep::Dict(key) => match position_in(&dict.vec, key) {
                Some(at) => {
                    let ghost vec0 = dict.vec;
                    let ghost vec1 = final(dict).vec;
                    let keyed = &mut dict.vec[at];
                    let ghost keyed0 = *keyed;
                    let ghost keyed1 = *final(keyed);
                    let item = &mut keyed.value;
                    let ghost item1 = *final(item);
                    let r = walk_mut(item, steps, from + 1);
                    proof {
                        assert(vec1@ == vec0@.update(at as int, keyed1));
                        assert(keyed1@ == (Entry { value: item1@, ..keyed0@ }));
                        assert(entries_of(vec1@) =~= entries_of(vec0@).update(at as int, keyed1@));
                        if r is Err {
                            assert(entries_of(vec1@) =~= entries_of(vec0@));
                        }
                    }
                    r
                },
                None => {
                    let good = slice_subrange(steps, 0, from);
                    assert(steps_of(good@) =~= all.take(from as int));
                    Err(PathErr::some(good, Have::DictMissingKey, step))
                },
            },
            PathStep::List(_) => {
                let good = slice_subrange(steps, 0, from);
                assert(steps_of(good@) =~= all.take(from as int));
                Err(PathErr::some(good, Have::Mismatch(Kind::Dict), step))
            },
        },
    }
}

impl Path {
    #[verifier::type_invariant]
    closed spec fn inv(self) -> bool {
        self.steps@.len() > 0
    }

    /// A path of `steps`, of which there is at least one.
    pub fn from(steps: &'static [PathStep]) -> (r: Self)
        requires
            steps@.len() > 0,
        ensures
            r@ == steps_of(steps@),
    {
        Path { steps }
    }

    /// The steps of the path.
    pub fn steps(&self) -> (r: &'static [PathStep])
        ensures
            steps_of(r@) == self@,
            r@.len() > 0,
    {
        proof {
            use_type_invariant(self);
        }
        self.steps
    }

    /// Resolves the path, starting at `root`, to a value.
    pub fn value<'v, 'a>(&self, root: &'v Value<'a>) -> (r: Result<&'v Value<'a>, PathErr>)
        ensures
            match r {
                Ok(v) => resolve(root@, self@) == Ok::<Node, Failure>(v@),
                Err(e) => resolve(root@, self@) == Err::<Node, Failure>(e@),
            },
    {
        let steps = self.steps;
        let ghost all = steps_of(steps@);
        let mut value = root;
        let mut i: usize = 0;
        while i < steps.len()
            invariant
                i <= steps@.len(),
                all == steps_of(steps@),
                all == self@,
                resolve(root@, all) == resolve_from(value@, all, i as int),
            decreases steps@.len() - i,
        {
            let step = &steps[i];
            assert(all[i as int] == step@);
            match child(value, step) {
                Ok(v) => {
                    value = v;
                },
                Err(have) => {
                    let good = slice_subrange(steps, 0, i);
                    assert(steps_of(good@) =~= all.take(i as int));
                    return Err(PathErr::some(good, have, step));
                },
            }
            i += 1;
        }
        Ok(value)
    }

    /// Resolves the path, starting at `root`, to a value that can be changed
    /// in place. Nothing but that value can be changed through the result:
    /// afterwards `root` is what it was, with the value that the path leads
    /// to replaced by what the caller left there.
    pub fn value_mut<'v, 'a>(&self, root: &'v mut Value<'a>) -> (r: Result<
        &'v mut Value<'a>,
        PathErr,
    >)
        ensures
            match r {
                Ok(v) => resolve(old(root)@, self@) == Ok::<Node, Failure>(v@) && final(root)@
                    == graft(old(root)@, self@, final(v)@),
                Err(e) => resolve(old(root)@, self@) == Err::<Node, Failure>(e@) && final(root)@
                    == old(root)@,
            },
    {
        walk_mut(root, self.steps, 0)
    }

    /// Resolves the path, starting at `root`, to a text.
    pub fn text<'v, 'a>(&self, root: &'v Value<'a>) -> (r: Result<&'v Text<'a>, PathErr>)
        ensures
            match r {
                Ok(text) => expect(resolve(root@, self@), Kind::Text, self@) == Ok::<Node, Failure>(
                    text@,
                ),
                Err(e) => expect(resolve(root@, self@), Kind::Text, self@) == Err::<Node, Failure>(
                    e@,
                ),
            },
    {
        match self.value(root) {
            Err(e) => Err(e),
            Ok(value) => {
                proof {
                    value.lemma_model();
                }
                match value {
                    Value::Text(text) => Ok(text),
                    Value::List(_) => Err(self.wrong(Kind::List, Kind::Text)),
                    Value::Dict(_) => Err(self.wrong(Kind::Dict, Kind::Text)),
                }
            },
        }
    }

    /// Resolves the path, starting at `root`, to a text that can be changed
    /// in place.
    pub fn text_mut<'v, 'a>(&self, root: &'v mut Value<'a>) -> (r: Result<&'v mut Text<'a>, PathErr>)
        ensures
            match r {
                Ok(text) => expect(resolve(old(root)@, self@), Kind::Text, self@) == Ok::<
                    Node,
                    Failure,
                >(text@) && final(root)@ == graft(old(root)@, self@, final(text)@),
                Err(e) => expect(resolve(old(root)@, self@), Kind::Text, self@) == Err::<
                    Node,
                    Failure,
                >(e@) && final(root)@ == old(root)@,
            },
    {
        let ghost before = old(root)@;
        proof {
            use_type_invariant(self);
            if resolve(before, self@) is Ok {
                lemma_graft_same(before, self@, 0);
            }
        }
        match self.value_mut(root) {
            Err(e) => Err(e),
            Ok(value) => {
                let ghost after = *final(value);
                proof {
                    value.lemma_model();
                    after.lemma_model();
                }
                match value {
                    Value::Text(text) => Ok(text),
                    Value::List(_) => Err(self.wrong(Kind::List, Kind::Text)),
                    Value::Dict(_) => Err(self.wrong(Kind::Dict, Kind::Text)),
                }
            },
        }
    }

    /// Resolves the path, starting at `root`, to a list.
    pub fn list<'v, 'a>(&self, root: &'v Value<'a>) -> (r: Result<&'v List<'a>, PathErr>)
        ensures
            match r {
                Ok(list) => expect(resolve(root@, self@), Kind::List, self@) == Ok::<Node, Failure>(
                    list@,
                ),
                Err(e) => expect(resolve(root@, self@), Kind::List, self@) == Err::<Node, Failure>(
                    e@,
                ),
            },
    {
        match self.value(root) {
            Err(e) => Err(e),
            Ok(value) => {
                proof {
                    value.lemma_model();
                }
                match value {
                    Value::List(list) => Ok(list),
                    Value::Dict(_) => Err(self.wrong(Kind::Dict, Kind::List)),
                    Value::Text(_) => Err(self.wrong(Kind::Text, Kind::List)),
                }
            },
        }
    }

    /// Resolves the path, starting at `root`, to a list that can be changed
    /// in place.
    pub fn list_mut<'v, 'a>(&self, root: &'v mut Value<'a>) -> (r: Result<&'v mut List<'a>, PathErr>)
        ensures
            match r {
                Ok(list) => expect(resolve(old(root)@, self@), Kind::List, self@) == Ok::<
                    Node,
                    Failure,
                >(list@) && final(root)@ == graft(old(root)@, self@, final(list)@),
                Err(e) => expect(resolve(old(root)@, self@), Kind::List, self@) == Err::<
                    Node,
                    Failure,
                >(e@) && final(root)@ == old(root)@,
            },
    {
        let ghost before = old(root)@;
        proof {
            use_type_invariant(self);
            if resolve(before, self@) is Ok {
                lemma_graft_same(before, self@, 0);
            }
        }
        match self.value_mut(root) {
            Err(e) => Err(e),
            Ok(value) => {
                let ghost after = *final(value);
                proof {
                    value.lemma_model();
                    after.lemma_model();
                }
                match value {
                    Value::List(list) => Ok(list),
                    Value::Dict(_) => Err(self.wrong(Kind::Dict, Kind::List)),
                    Value::Text(_) => Err(self.wrong(Kind::Text, Kind::List)),
                }
            },
        }
    }

    /// Resolves the path, starting at `root`, to a dictionary.
    pub fn dict<'v, 'a>(&self, root: &'v Value<'a>) -> (r: Result<&'v Dict<'a>, PathErr>)
        ensures
            match r {
                Ok(dict) => expect(resolve(root@, self@), Kind::Dict, self@) == Ok::<Node, Failure>(
                    dict@,
                ),
                Err(e) => expect(resolve(root@, self@), Kind::Dict, self@) == Err::<Node, Failure>(
                    e@,
                ),
            },
    {
        match self.value(root) {
            Err(e) => Err(e),
            Ok(value) => {
                proof {
                    value.lemma_model();
                }
                match value {
                    Value::Dict(dict) => Ok(dict),
                    Value::List(_) => Err(self.wrong(Kind::List, Kind::Dict)),
                    Value::Text(_) => Err(self.wrong(Kind::Text, Kind::Dict)),
                }
            },
        }
    }

    /// Resolves the path, starting at `root`, to a dictionary that can be
    /// changed in place.
    pub fn dict_mut<'v, 'a>(&self, root: &'v mut Value<'a>) -> (r: Result<&'v mut Dict<'a>, PathErr>)
        ensures
            match r {
                Ok(dict) => expect(resolve(old(root)@, self@), Kind::Dict, self@) == Ok::<
                    Node,
                    Failure,
                >(dict@) && final(root)@ == graft(old(root)@, self@, final(dict)@),
                Err(e) => expect(resolve(old(root)@, self@), Kind::Dict, self@) == Err::<
                    Node,
                    Failure,
                >(e@) && final(root)@ == old(root)@,
            },
    {
        let ghost before = old(root)@;
        proof {
            use_type_invariant(self);
            if resolve(before, self@) is Ok {
                lemma_graft_same(before, self@, 0);
            }
        }
        match self.value_mut(root) {
            Err(e) => Err(e),
            Ok(value) => {
                let ghost after = *final(value);
                proof {
                    value.lemma_model();
                    after.lemma_model();
                }
                match value {
                    Value::Dict(dict) => Ok(dict),
                    Value::List(_) => Err(self.wrong(Kind::List, Kind::Dict)),
                    Value::Text(_) => Err(self.wrong(Kind::Text, Kind::Dict)),
                }
            },
        }
    }

    /// The error of a path that led to a value of the kind `found` where the
    /// caller asked for one of the kind `wanted`.
    fn wrong(&self, found: Kind, wanted: Kind) -> (r: PathErr)
        ensures
            r@ == (Failure { good: self@, have: Have::Wrong { found, wanted }, fail: None }),
    {
        PathErr::none(self.steps, Have::Wrong { found, wanted })
    }

    /// The path as it is shown: `.zero[1].two`.
    pub fn to_string(&self) -> (r: String)
        ensures
            r@ == rendered(self@),
    {
        let mut out = String::new();
        push_steps(&mut out, self.steps);
        assert(out@ =~= rendered(self@));
        out
    }
}

/// The name of a kind of value.
fn kind_str(kind: Kind) -> (r: &'static str)
    ensures
        r@ == kind_name(kind),
{
    match kind {
        Kind::Text => "Text",
        Kind::List => "List",
        Kind::Dict => "Dict",
    }
}

/// Appends a step as it is shown.
fn push_step(into: &mut String, step: &PathStep)
    ensures
        final(into)@ == old(into)@ + step_text(step@),
{
    proof {
        reveal_strlit("[");
        reveal_strlit("]");
        reveal_strlit(".");
        assert("["@ =~= seq!['[']);
        assert("]"@ =~= seq![']']);
        assert("."@ =~= seq!['.']);
    }
    match step {
        PathStep::List(index) => {
            into.append("[");
            push_decimal(into, *index);
            into.append("]");
            assert(into@ =~= old(into)@ + step_text(step@));
        },
        PathStep::Dict(key) => {
            into.append(".");
            into.append(key);
            assert(into@ =~= old(into)@ + step_text(step@));
        },
    }
}

/// Appends steps as they are shown.
fn push_steps(into: &mut String, steps: &[PathStep])
    ensures
        final(into)@ == old(into)@ + rendered(steps_of(steps@)),
{
    let ghost all = steps_of(steps@);
    let mut i: usize = 0;
    proof {
        assert(all.take(0) =~= Seq::<Step>::empty());
        assert(into@ + rendered(all.take(0)) =~= into@);
    }
    while i < steps.len()
        invariant
            i <= steps@.len(),
            all == steps_of(steps@),
            into@ == old(into)@ + rendered(all.take(i as int)),
        decreases steps@.len() - i,
    {
        proof {
            assert(all.take(i + 1).drop_last() =~= all.take(i as int));
            assert(all.take(i + 1).last() == steps@[i as int]@);
        }
        push_step(into, &steps[i]);
        proof {
            assert(into@ =~= old(into)@ + rendered(all.take(i + 1)));
        }
        i += 1;
    }
    proof {
        assert(all.take(i as int) =~= all);
    }
}

impl PathErr {
    /// Renders the diagnostic: `` Path `.zero[1]` leads to Text, can't apply
    /// step `.two`. ``
    pub fn to_string(&self) -> (r: String)
        ensures
            r@ == self@.message(),
    {
        let mut out = String::new();
        out.append("Path `");
        push_steps(&mut out, self.good);
        out.append("` leads to ");
        match self.have {
            Have::Mismatch(kind) => {
                out.append(kind_str(kind));
            },
            Have::ListTooShort => {
                out.append("List too short");
            },
            Have::DictMissingKey => {
                out.append("Dict missing key");
            },
            Have::Wrong { found, wanted } => {
                out.append(kind_str(found));
                out.append(" (not ");
                out.append(kind_str(wanted));
                out.append(")");
            },
        }
        assert(out@ =~= "Path `"@ + rendered(self@.good) + "` leads to "@ + have_text(self@.have));
        match self.fail {
            Some(step) => {
                out.append(", can't apply step `");
                push_step(&mut out, step);
                out.append("`");
            },
            None => {},
        }
        out.append(".");
        assert(out@ =~= self@.message());
        out
    }
}

} // verus!
