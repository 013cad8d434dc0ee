//! The replicated notebook: dots, causal contexts, the multi-value register of item contents and
//! the state of one entity.

use vstd::prelude::*;
use vstd::string::*;

use crate::files::{FileManifest, ManifestView};
use crate::plain::{duplicate_opt, opt_view, same_opt, views, Plain};
use crate::text::{decimal, decimal_text, text_before, text_lt};
use crate::textmap::TextMap;

verus! {

/// The version of the wire format.
pub const SYNC_SCHEMA_VERSION: u16 = 1;

/// One event: the number that a device gave it.
#[derive(Debug, Clone, PartialEq, Eq)]
pub struct Dot {
    pub actor_id: String,
    pub counter: u64,
}

/// What a dot says.
pub struct DotView {
    pub actor: Seq<char>,
    pub counter: u64,
}

impl View for Dot {
    type V = DotView;

    open spec fn view(&self) -> DotView {
        DotView { actor: self.actor_id@, counter: self.counter }
    }
}

impl Plain for Dot {
    fn duplicate(&self) -> (copy: Self) {
        Dot { actor_id: self.actor_id.duplicate(), counter: self.counter }
    }

    fn same(&self, other: &Self) -> (equal: bool) {
        self.counter == other.counter && self.actor_id.same(&other.actor_id)
    }
}

/// The order of dots: by counter, and by actor where the counters agree.
pub open spec fn dot_before(a: DotView, b: DotView) -> bool {
    a.counter < b.counter || (a.counter == b.counter && text_before(a.actor, b.actor))
}

impl Dot {
    /// Whether this dot comes before another.
    pub fn before(&self, other: &Dot) -> (earlier: bool)
        ensures
            earlier == dot_before(self@, other@),
    {
        self.counter < other.counter || (self.counter == other.counter && text_lt(
            self.actor_id.as_str(),
            other.actor_id.as_str(),
        ))
    }
}

/// The greatest counter that a context holds of an actor; zero where it holds none.
pub open spec fn counter_of(context: Map<Seq<char>, u64>, actor: Seq<char>) -> u64 {
    if context.contains_key(actor) {
        context[actor]
    } else {
        0
    }
}

/// The context includes the event.
pub open spec fn observes(context: Map<Seq<char>, u64>, dot: DotView) -> bool {
    counter_of(context, dot.actor) >= dot.counter
}

pub open spec fn larger(a: u64, b: u64) -> u64 {
    if a >= b {
        a
    } else {
        b
    }
}

/// The context together with the event.
pub open spec fn observe(context: Map<Seq<char>, u64>, dot: DotView) -> Map<Seq<char>, u64> {
    context.insert(dot.actor, larger(counter_of(context, dot.actor), dot.counter))
}

/// The events of both contexts.
pub open spec fn merge(a: Map<Seq<char>, u64>, b: Map<Seq<char>, u64>) -> Map<Seq<char>, u64> {
    Map::new(
        |actor: Seq<char>| a.contains_key(actor) || b.contains_key(actor),
        |actor: Seq<char>| larger(counter_of(a, actor), counter_of(b, actor)),
    )
}

/// Every event of the second context is in the first.
pub open spec fn covers(a: Map<Seq<char>, u64>, b: Map<Seq<char>, u64>) -> bool {
    forall|actor: Seq<char>| #[trigger] counter_of(a, actor) >= counter_of(b, actor)
}

/// A compact causal context. Only the greatest observed counter of each actor is kept, which
/// makes an exchange proportional to the number of devices.
#[derive(Debug, PartialEq, Eq)]
pub struct VersionVector(pub TextMap<u64>);

impl View for VersionVector {
    type V = Map<Seq<char>, u64>;

    open spec fn view(&self) -> Map<Seq<char>, u64> {
        self.0@
    }
}

impl Plain for VersionVector {
    fn duplicate(&self) -> (copy: Self) {
        VersionVector(self.0.copied())
    }

    fn same(&self, other: &Self) -> (equal: bool) {
        self.0.equals(&other.0)
    }
}

impl Clone for VersionVector {
    fn clone(&self) -> (copy: Self)
        ensures
            copy@ == self@,
    {
        self.duplicate()
    }
}

impl Default for VersionVector {
    fn default() -> (context: Self)
        ensures
            context@ == Map::<Seq<char>, u64>::empty(),
    {
        VersionVector(TextMap::new())
    }
}

impl VersionVector {
    /// The greatest counter of an actor; zero where there is none.
    pub fn counter(&self, actor: &str) -> (counter: u64)
        ensures
            counter == counter_of(self@, actor@),
    {
        match self.0.get(actor) {
            Some(counter) => *counter,
            None => 0,
        }
    }

    /// Whether the context includes the event.
    pub fn observes(&self, dot: &Dot) -> (observed: bool)
        ensures
            observed == observes(self@, dot@),
    {
        self.counter(dot.actor_id.as_str()) >= dot.counter
    }

    /// Adds an event.
    pub fn observe(&mut self, dot: &Dot)
        ensures
            final(self)@ == observe(old(self)@, dot@),
    {
        let current: u64 = self.counter(dot.actor_id.as_str());
        let counter: u64 = if current >= dot.counter {
            current
        } else {
            dot.counter
        };
        self.0.insert(dot.actor_id.duplicate(), counter);
    }

    /// Adds every event of another context.
    pub fn merge(&mut self, other: &Self)
        ensures
            final(self)@ == merge(old(self)@, other@),
    {
        let ghost before = self@;
        let count: usize = other.0.len();
        let ghost keys = other.0.keys();
        let mut i: usize = 0;
        while i < count
            invariant
                count == other.0.keys().len(),
                other.0.lists_keys(),
                keys == other.0.keys(),
                i <= count,
                forall|actor: Seq<char>| #[trigger]
                    self@.contains_key(actor) <==> before.contains_key(actor) || keys.take(
                        i as int,
                    ).contains(actor),
                forall|actor: Seq<char>| #[trigger]
                    self@.contains_key(actor) ==> self@[actor] == if keys.take(i as int).contains(
                        actor,
                    ) {
                        larger(counter_of(before, actor), counter_of(other@, actor))
                    } else {
                        before[actor]
                    },
            decreases count - i,
        {
            let actor = other.0.key_at(i);
            let counter: u64 = *other.0.value_at(i);
            let current: u64 = self.counter(actor.as_str());
            self.0.insert(
                actor.duplicate(),
                if current >= counter {
                    current
                } else {
                    counter
                },
            );
            proof {
                let n = i as int;
                let done = keys.take(n);
                let next = keys.take(n + 1);
                assert(next =~= done.push(actor@));
                assert forall|key: Seq<char>| #[trigger] next.contains(key) <==> done.contains(key)
                    || key == actor@ by {
                    if done.contains(key) {
                        let j = done.index_of(key);
                        assert(next[j] == key);
                    }
                    if key == actor@ {
                        assert(next[n] == key);
                    }
                    if next.contains(key) {
                        let j = next.index_of(key);
                        if j < n {
                            assert(done[j] == key);
                        }
                    }
                }
                if done.contains(actor@) {
                    let j = done.index_of(actor@);
                    assert(keys[j] == keys[n]);
                    crate::text::lemma_text_order(actor@, actor@, actor@);
                }
                assert(current == counter_of(before, actor@));
            }
            i = i + 1;
        }
        proof {
            assert(keys.take(count as int) =~= keys);
            assert forall|actor: Seq<char>| #[trigger] keys.contains(actor)
                == other@.contains_key(actor) by {
                if keys.contains(actor) {
                    assert(keys[keys.index_of(actor)] == actor);
                }
            }
            assert(self@ =~= merge(before, other@));
        }
    }
}

/// One assignment of an item's content.
#[derive(Debug, Clone, PartialEq)]
pub struct ContentVersion {
    pub dot: Dot,
    pub context: VersionVector,
    pub value: String,
}

/// What an assignment says.
pub struct VersionView {
    pub dot: DotView,
    pub context: Map<Seq<char>, u64>,
    pub value: Seq<char>,
}

impl View for ContentVersion {
    type V = VersionView;

    open spec fn view(&self) -> VersionView {
        VersionView { dot: self.dot@, context: self.context@, value: self.value@ }
    }
}

impl Plain for ContentVersion {
    fn duplicate(&self) -> (copy: Self) {
        ContentVersion {
            dot: self.dot.duplicate(),
            context: self.context.duplicate(),
            value: self.value.duplicate(),
        }
    }

    fn same(&self, other: &Self) -> (equal: bool) {
        self.dot.same(&other.dot) && self.context.same(&other.context) && self.value.same(
            &other.value,
        )
    }
}

/// The assignment put in its place in a list that is ordered by dot, behind those of equal dot.
pub open spec fn placed(versions: Seq<VersionView>, version: VersionView) -> Seq<VersionView>
    decreases versions.len(),
{
    if versions.len() == 0 || !dot_before(version.dot, versions.last().dot) {
        versions.push(version)
    } else {
        placed(versions.drop_last(), version).push(versions.last())
    }
}

/// The stable sort of assignments by dot.
pub open spec fn sorted_by_dot(versions: Seq<VersionView>) -> Seq<VersionView>
    decreases versions.len(),
{
    if versions.len() == 0 {
        versions
    } else {
        placed(sorted_by_dot(versions.drop_last()), versions.last())
    }
}

/// The assignments that a later one has not observed.
pub open spec fn unobserved(
    versions: Seq<VersionView>,
    context: Map<Seq<char>, u64>,
) -> Seq<VersionView> {
    versions.filter(|version: VersionView| !observes(context, version.dot))
}

/// An assignment that the register already holds, or that one of those it holds was authored
/// after observing.
pub open spec fn obsolete(versions: Seq<VersionView>, incoming: VersionView) -> bool {
    exists|i: int|
        0 <= i < versions.len() && ((#[trigger] versions[i]).dot == incoming.dot || observes(
            versions[i].context,
            incoming.dot,
        ))
}

/// The register after an assignment arrives.
pub open spec fn register_apply(
    versions: Seq<VersionView>,
    incoming: VersionView,
) -> Seq<VersionView> {
    if obsolete(versions, incoming) {
        versions
    } else {
        sorted_by_dot(unobserved(versions, incoming.context).push(incoming))
    }
}

/// A multi-value register for the content of an item. Concurrent edits are kept as separate
/// values and shown as a conflict instead of one silently overwriting the other. A later
/// resolution observes all of them and replaces them.
#[derive(Debug, Clone, PartialEq)]
pub struct ContentRegister {
    pub versions: Vec<ContentVersion>,
}

impl View for ContentRegister {
    type V = Seq<VersionView>;

    open spec fn view(&self) -> Seq<VersionView> {
        views(self.versions@)
    }
}

impl Plain for ContentRegister {
    fn duplicate(&self) -> (copy: Self) {
        ContentRegister { versions: crate::plain::duplicate_all(self.versions.as_slice()) }
    }

    fn same(&self, other: &Self) -> (equal: bool) {
        crate::plain::same_all(self.versions.as_slice(), other.versions.as_slice())
    }
}

impl Default for ContentRegister {
    fn default() -> (register: Self)
        ensures
            register@ == Seq::<VersionView>::empty(),
    {
        let register = ContentRegister { versions: Vec::new() };
        assert(register@ =~= Seq::<VersionView>::empty());
        register
    }
}

proof fn lemma_placed_split(
    versions: Seq<VersionView>,
    version: VersionView,
    at: int,
)
    requires
        0 <= at <= versions.len(),
        forall|i: int| at <= i < versions.len() ==> dot_before(
            version.dot,
            (#[trigger] versions[i]).dot,
        ),
        at > 0 ==> !dot_before(version.dot, versions[at - 1].dot),
    ensures
        placed(versions, version) == versions.take(at).push(version) + versions.skip(at),
    decreases versions.len(),
{
    if at == versions.len() {
        assert(versions.take(at).push(version) + versions.skip(at) =~= versions.push(version));
    } else {
        let n = versions.len() as int;
        assert(dot_before(version.dot, versions[n - 1].dot));
        let shorter = versions.drop_last();
        assert forall|i: int| at <= i < shorter.len() implies dot_before(
            version.dot,
            (#[trigger] shorter[i]).dot,
        ) by {
            assert(shorter[i] == versions[i]);
        }
        lemma_placed_split(shorter, version, at);
        assert((shorter.take(at).push(version) + shorter.skip(at)).push(versions.last())
            =~= versions.take(at).push(version) + versions.skip(at));
    }
}

/// Puts an assignment in its place.
fn place(versions: &mut Vec<ContentVersion>, version: ContentVersion)
    ensures
        views(final(versions)@) == placed(views(old(versions)@), version@),
{
    let mut at: usize = versions.len();
    while at > 0 && version.dot.before(&versions[at - 1].dot)
        invariant
            at <= versions@.len(),
            forall|i: int| at <= i < versions@.len() ==> dot_before(
                version@.dot,
                (#[trigger] views(versions@)[i]).dot,
            ),
        decreases at,
    {
        at = at - 1;
    }
    let ghost before = versions@;
    proof {
        lemma_placed_split(views(before), version@, at as int);
    }
    versions.insert(at, version);
    assert(views(versions@) =~= views(before).take(at as int).push(version@) + views(
        before,
    ).skip(at as int));
}

impl ContentRegister {
    /// Takes in an assignment. One that is already there, or that was observed by one that is
    /// there, changes nothing. Otherwise it replaces those that it observed, and the register is
    /// ordered by dot.
    pub fn apply(&mut self, incoming: ContentVersion)
        ensures
            final(self)@ == register_apply(old(self)@, incoming@),
    {
        let ghost before = self@;
        let mut i: usize = 0;
        while i < self.versions.len()
            invariant
                self@ == before,
                i <= self.versions@.len(),
                forall|j: int|
                    0 <= j < i ==> (#[trigger] before[j]).dot != incoming@.dot && !observes(
                        before[j].context,
                        incoming@.dot,
                    ),
            decreases self.versions@.len() - i,
        {
            let existing = &self.versions[i];
            assert(before[i as int] == existing@);
            if existing.dot.same(&incoming.dot) || existing.context.observes(&incoming.dot) {
                return;
            }
            i = i + 1;
        }
        let mut kept: Vec<ContentVersion> = Vec::new();
        let ghost keep = |version: VersionView| !observes(incoming@.context, version.dot);
        i = 0;
        proof {
            reveal(Seq::filter);
            assert(views(kept@) =~= sorted_by_dot(before.take(0).filter(keep)));
        }
        while i < self.versions.len()
            invariant
                self@ == before,
                i <= self.versions@.len(),
                keep == (|version: VersionView| !observes(incoming@.context, version.dot)),
                views(kept@) == sorted_by_dot(before.take(i as int).filter(keep)),
            decreases self.versions@.len() - i,
        {
            let existing = &self.versions[i];
            proof {
                reveal(Seq::filter);
                assert(before[i as int] == existing@);
                assert(before.take(i + 1).drop_last() =~= before.take(i as int));
                let head = before.take(i as int).filter(keep);
                assert(head.push(existing@).drop_last() =~= head);
            }
            if !incoming.context.observes(&existing.dot) {
                let copy = existing.duplicate();
                place(&mut kept, copy);
            }
            i = i + 1;
        }
        proof {
            assert(before.take(i as int) =~= before);
            let rest = unobserved(before, incoming@.context);
            assert(rest.push(incoming@).drop_last() =~= rest);
        }
        place(&mut kept, incoming);
        self.versions = kept;
    }

    /// Whether concurrent edits are waiting for a resolution.
    pub fn has_conflict(&self) -> (conflict: bool)
        ensures
            conflict == (self@.len() > 1),
    {
        self.versions.len() > 1
    }

    /// Stable projection for clients that cannot show a conflict: the value of the last dot. The
    /// other values stay available for an explicit resolution.
    pub fn projected_value(&self) -> (value: Option<&str>)
        ensures
            value is Some <==> self@.len() > 0,
            value matches Some(text) ==> text@ == self@.last().value,
    {
        let count: usize = self.versions.len();
        if count == 0 {
            None
        } else {
            Some(self.versions[count - 1].value.as_str())
        }
    }
}

/// The value of a metadata field. Numbers keep the three forms of JSON: a natural number, a
/// negative one and a binary fraction. Each carries the bits of the binary fraction nearest to it.
/// Anything nested is kept by its encoding, together with the manifest that it reads as, if it
/// reads as one.
#[derive(Debug, Clone, PartialEq)]
pub enum FieldValue {
    Null,
    Bool(bool),
    Natural { value: u64, bits: u64 },
    Negative { value: i64, bits: u64 },
    Fraction { bits: u64 },
    Text(String),
    Nested { encoded: String, manifest: Option<FileManifest> },
}

/// What a metadata value says.
pub enum FieldView {
    Null,
    Bool(bool),
    Natural { value: u64, bits: u64 },
    Negative { value: i64, bits: u64 },
    Fraction { bits: u64 },
    Text(Seq<char>),
    Nested { encoded: Seq<char>, manifest: Option<ManifestView> },
}

impl View for FieldValue {
    type V = FieldView;

    open spec fn view(&self) -> FieldView {
        match self {
            FieldValue::Null => FieldView::Null,
            FieldValue::Bool(value) => FieldView::Bool(*value),
            FieldValue::Natural { value, bits } => FieldView::Natural {
                value: *value,
                bits: *bits,
            },
            FieldValue::Negative { value, bits } => FieldView::Negative {
                value: *value,
                bits: *bits,
            },
            FieldValue::Fraction { bits } => FieldView::Fraction { bits: *bits },
            FieldValue::Text(value) => FieldView::Text(value@),
            FieldValue::Nested { encoded, manifest } => FieldView::Nested {
                encoded: encoded@,
                manifest: opt_view(*manifest),
            },
        }
    }
}

impl Plain for FieldValue {
    fn duplicate(&self) -> (copy: Self) {
        match self {
            FieldValue::Null => FieldValue::Null,
            FieldValue::Bool(value) => FieldValue::Bool(*value),
            FieldValue::Natural { value, bits } => FieldValue::Natural {
                value: *value,
                bits: *bits,
            },
            FieldValue::Negative { value, bits } => FieldValue::Negative {
                value: *value,
                bits: *bits,
            },
            FieldValue::Fraction { bits } => FieldValue::Fraction { bits: *bits },
            FieldValue::Text(value) => FieldValue::Text(value.duplicate()),
            FieldValue::Nested { encoded, manifest } => FieldValue::Nested {
                encoded: encoded.duplicate(),
                manifest: duplicate_opt(manifest),
            },
        }
    }

    fn same(&self, other: &Self) -> (equal: bool) {
        match (self, other) {
            (FieldValue::Null, FieldValue::Null) => true,
            (FieldValue::Bool(a), FieldValue::Bool(b)) => *a == *b,
            (
                FieldValue::Natural { value: a, bits: x },
                FieldValue::Natural { value: b, bits: y },
            ) => *a == *b && *x == *y,
            (
                FieldValue::Negative { value: a, bits: x },
                FieldValue::Negative { value: b, bits: y },
            ) => *a == *b && *x == *y,
            (FieldValue::Fraction { bits: a }, FieldValue::Fraction { bits: b }) => *a == *b,
            (FieldValue::Text(a), FieldValue::Text(b)) => a.same(b),
            (
                FieldValue::Nested { encoded: a, manifest: x },
                FieldValue::Nested { encoded: b, manifest: y },
            ) => a.same(b) && same_opt(x, y),
            _ => false,
        }
    }
}

/// The bits of the fraction with no magnitude and a negative sign.
pub const NEGATIVE_ZERO_BITS: u64 = 0x8000_0000_0000_0000;

/// The bits are those of one of the two zeros.
pub open spec fn zero_bits(bits: u64) -> bool {
    bits == 0 || bits == NEGATIVE_ZERO_BITS
}

impl FieldView {
    /// The two values are equal as JSON values: integers by what they count, and fractions by what
    /// they measure, so that the two zeros are one.
    pub open spec fn equals(self, other: FieldView) -> bool {
        match (self, other) {
            (FieldView::Natural { value: a, bits: x }, FieldView::Natural { value: b, bits: y }) => a
                == b,
            (
                FieldView::Negative { value: a, bits: x },
                FieldView::Negative { value: b, bits: y },
            ) => a == b,
            (FieldView::Fraction { bits: a }, FieldView::Fraction { bits: b }) => a == b || (
            zero_bits(a) && zero_bits(b)),
            _ => self == other,
        }
    }

    /// The text that the value is, if it is text.
    pub open spec fn text(self) -> Option<Seq<char>> {
        match self {
            FieldView::Text(value) => Some(value),
            _ => None,
        }
    }

    /// The truth value that the value is, if it is one.
    pub open spec fn boolean(self) -> Option<bool> {
        match self {
            FieldView::Bool(value) => Some(value),
            _ => None,
        }
    }

    /// The natural number that the value is, if it is one.
    pub open spec fn natural(self) -> Option<u64> {
        match self {
            FieldView::Natural { value, bits } => Some(value),
            _ => None,
        }
    }

    /// The 64-bit integer that the value is, if it is one.
    pub open spec fn integer(self) -> Option<i64> {
        match self {
            FieldView::Natural { value, bits } => if value <= i64::MAX {
                Some(value as i64)
            } else {
                None
            },
            FieldView::Negative { value, bits } => Some(value),
            _ => None,
        }
    }

    /// The bits of the binary fraction nearest to the value, if it is a number.
    pub open spec fn fraction(self) -> Option<u64> {
        match self {
            FieldView::Natural { value, bits } => Some(bits),
            FieldView::Negative { value, bits } => Some(bits),
            FieldView::Fraction { bits } => Some(bits),
            _ => None,
        }
    }

    /// The manifest that the value reads as, if it reads as one.
    pub open spec fn manifest(self) -> Option<ManifestView> {
        match self {
            FieldView::Nested { encoded, manifest } => manifest,
            _ => None,
        }
    }
}

impl FieldValue {
    /// Whether the two values are equal as JSON values.
    pub fn is_equal(&self, other: &FieldValue) -> (equal: bool)
        ensures
            equal == self@.equals(other@),
    {
        match (self, other) {
            (
                FieldValue::Natural { value: a, bits: _ },
                FieldValue::Natural { value: b, bits: _ },
            ) => *a == *b,
            (
                FieldValue::Negative { value: a, bits: _ },
                FieldValue::Negative { value: b, bits: _ },
            ) => *a == *b,
            (FieldValue::Fraction { bits: a }, FieldValue::Fraction { bits: b }) => *a == *b || ((
            *a == 0 || *a == NEGATIVE_ZERO_BITS) && (*b == 0 || *b == NEGATIVE_ZERO_BITS)),
            _ => self.same(other),
        }
    }

    /// The text that the value is, if it is text.
    pub fn as_text(&self) -> (text: Option<&String>)
        ensures
            self@.text() == match text {
                Some(value) => Some(value@),
                None => None,
            },
    {
        match self {
            FieldValue::Text(value) => Some(value),
            _ => None,
        }
    }

    /// The truth value that the value is, if it is one.
    pub fn as_bool(&self) -> (value: Option<bool>)
        ensures
            value == self@.boolean(),
    {
        match self {
            FieldValue::Bool(value) => Some(*value),
            _ => None,
        }
    }

    /// The natural number that the value is, if it is one.
    pub fn as_natural(&self) -> (number: Option<u64>)
        ensures
            number == self@.natural(),
    {
        match self {
            FieldValue::Natural { value, bits } => Some(*value),
            _ => None,
        }
    }

    /// The 64-bit integer that the value is, if it is one.
    pub fn as_integer(&self) -> (number: Option<i64>)
        ensures
            number == self@.integer(),
    {
        match self {
            FieldValue::Natural { value, bits } => if *value <= 0x7fff_ffff_ffff_ffff {
                Some(*value as i64)
            } else {
                None
            },
            FieldValue::Negative { value, bits } => Some(*value),
            _ => None,
        }
    }

    /// The bits of the binary fraction nearest to the value, if it is a number.
    pub fn as_fraction(&self) -> (nearest: Option<u64>)
        ensures
            nearest == self@.fraction(),
    {
        match self {
            FieldValue::Natural { value, bits } => Some(*bits),
            FieldValue::Negative { value, bits } => Some(*bits),
            FieldValue::Fraction { bits } => Some(*bits),
            _ => None,
        }
    }

    /// The manifest that the value reads as, if it reads as one.
    pub fn as_manifest(&self) -> (read: Option<&FileManifest>)
        ensures
            self@.manifest() == match read {
                Some(value) => Some(value@),
                None => None,
            },
    {
        match self {
            FieldValue::Nested { encoded, manifest: Some(manifest) } => Some(manifest),
            _ => None,
        }
    }
}

/// A whole number with the bits of the binary fraction nearest to it.
#[derive(Debug, Clone, Copy, PartialEq, Eq, Structural)]
pub struct WholeNumber {
    pub value: i64,
    pub bits: u64,
}

/// The field value of a whole number.
pub open spec fn whole_field(number: WholeNumber) -> FieldView {
    if number.value >= 0 {
        FieldView::Natural { value: number.value as u64, bits: number.bits }
    } else {
        FieldView::Negative { value: number.value, bits: number.bits }
    }
}

impl WholeNumber {
    /// The field value of the number.
    pub fn field(self) -> (value: FieldValue)
        ensures
            value@ == whole_field(self),
    {
        if self.value >= 0 {
            FieldValue::Natural { value: self.value as u64, bits: self.bits }
        } else {
            FieldValue::Negative { value: self.value, bits: self.bits }
        }
    }
}

/// A value that the latest stamp wins.
#[derive(Debug, Clone, PartialEq)]
pub struct LwwValue {
    pub stamp: Dot,
    pub value: FieldValue,
}

/// What a stamped value says.
pub struct LwwView {
    pub stamp: DotView,
    pub value: FieldView,
}

impl View for LwwValue {
    type V = LwwView;

    open spec fn view(&self) -> LwwView {
        LwwView { stamp: self.stamp@, value: self.value@ }
    }
}

impl Plain for LwwValue {
    fn duplicate(&self) -> (copy: Self) {
        LwwValue { stamp: self.stamp.duplicate(), value: self.value.duplicate() }
    }

    fn same(&self, other: &Self) -> (equal: bool) {
        self.stamp.same(&other.stamp) && self.value.same(&other.value)
    }
}

/// Of two stamped values the one with the later stamp; the first where neither is later.
pub open spec fn latest(current: LwwView, incoming: LwwView) -> LwwView {
    if dot_before(current.stamp, incoming.stamp) {
        incoming
    } else {
        current
    }
}

impl LwwValue {
    /// Takes the incoming value if its stamp is later.
    pub fn merge(&mut self, incoming: Self)
        ensures
            final(self)@ == latest(old(self)@, incoming@),
    {
        if self.stamp.before(&incoming.stamp) {
            *self = incoming;
        }
    }
}

/// What an entity is.
#[derive(Debug, Clone, Copy, PartialEq, Eq, Hash, Structural)]
pub enum EntityKind {
    Section,
    Item,
    Attachment,
}

/// What an operation does to its entity.
#[derive(Debug, Clone, PartialEq)]
pub enum Mutation {
    SetMetadata { field: String, value: FieldValue },
    SetContent { context: VersionVector, value: String },
    Delete,
    ResolveContent { context: VersionVector, value: String },
}

/// What a mutation says.
pub enum MutationView {
    SetMetadata { field: Seq<char>, value: FieldView },
    SetContent { context: Map<Seq<char>, u64>, value: Seq<char> },
    Delete,
    ResolveContent { context: Map<Seq<char>, u64>, value: Seq<char> },
}

impl View for Mutation {
    type V = MutationView;

    open spec fn view(&self) -> MutationView {
        match self {
            Mutation::SetMetadata { field, value } => MutationView::SetMetadata {
                field: field@,
                value: value@,
            },
            Mutation::SetContent { context, value } => MutationView::SetContent {
                context: context@,
                value: value@,
            },
            Mutation::Delete => MutationView::Delete,
            Mutation::ResolveContent { context, value } => MutationView::ResolveContent {
                context: context@,
                value: value@,
            },
        }
    }
}

impl Plain for Mutation {
    fn duplicate(&self) -> (copy: Self) {
        match self {
            Mutation::SetMetadata { field, value } => Mutation::SetMetadata {
                field: field.duplicate(),
                value: value.duplicate(),
            },
            Mutation::SetContent { context, value } => Mutation::SetContent {
                context: context.duplicate(),
                value: value.duplicate(),
            },
            Mutation::Delete => Mutation::Delete,
            Mutation::ResolveContent { context, value } => Mutation::ResolveContent {
                context: context.duplicate(),
                value: value.duplicate(),
            },
        }
    }

    fn same(&self, other: &Self) -> (equal: bool) {
        match (self, other) {
            (
                Mutation::SetMetadata { field: a, value: x },
                Mutation::SetMetadata { field: b, value: y },
            ) => a.same(b) && x.same(y),
            (
                Mutation::SetContent { context: a, value: x },
                Mutation::SetContent { context: b, value: y },
            ) => a.same(b) && x.same(y),
            (Mutation::Delete, Mutation::Delete) => true,
            (
                Mutation::ResolveContent { context: a, value: x },
                Mutation::ResolveContent { context: b, value: y },
            ) => a.same(b) && x.same(y),
            _ => false,
        }
    }
}

/// One event of a workspace: what a device did to an entity.
#[derive(Debug, Clone, PartialEq)]
pub struct Operation {
    pub schema_version: u16,
    pub workspace_id: String,
    pub entity_kind: EntityKind,
    pub entity_id: String,
    pub dot: Dot,
    pub mutation: Mutation,
}

/// What an operation says.
pub struct OperationView {
    pub schema_version: u16,
    pub workspace: Seq<char>,
    pub kind: EntityKind,
    pub entity: Seq<char>,
    pub dot: DotView,
    pub mutation: MutationView,
}

impl View for Operation {
    type V = OperationView;

    open spec fn view(&self) -> OperationView {
        OperationView {
            schema_version: self.schema_version,
            workspace: self.workspace_id@,
            kind: self.entity_kind,
            entity: self.entity_id@,
            dot: self.dot@,
            mutation: self.mutation@,
        }
    }
}

impl Plain for Operation {
    fn duplicate(&self) -> (copy: Self) {
        Operation {
            schema_version: self.schema_version,
            workspace_id: self.workspace_id.duplicate(),
            entity_kind: self.entity_kind,
            entity_id: self.entity_id.duplicate(),
            dot: self.dot.duplicate(),
            mutation: self.mutation.duplicate(),
        }
    }

    fn same(&self, other: &Self) -> (equal: bool) {
        self.schema_version == other.schema_version && self.workspace_id.same(&other.workspace_id)
            && self.entity_kind == other.entity_kind && self.entity_id.same(&other.entity_id)
            && self.dot.same(&other.dot) && self.mutation.same(&other.mutation)
    }
}

impl Operation {
    /// The name of the event: its actor, a colon and its counter.
    pub fn id(&self) -> (name: String)
        ensures
            name@ == self@.dot.actor + seq![':'] + decimal(self@.dot.counter as nat),
    {
        let mut name = self.dot.actor_id.duplicate();
        name.push(':');
        name.append(decimal_text(self.dot.counter).as_str());
        assert(name@ =~= self@.dot.actor + seq![':'] + decimal(self@.dot.counter as nat));
        name
    }
}

/// What one device tells another.
#[derive(Debug, Clone, PartialEq)]
pub struct SyncPayload {
    pub schema_version: u16,
    pub workspace_id: String,
    pub frontier: VersionVector,
    pub operations: Vec<Operation>,
}

/// What a payload says.
pub struct PayloadView {
    pub schema_version: u16,
    pub workspace: Seq<char>,
    pub frontier: Map<Seq<char>, u64>,
    pub operations: Seq<OperationView>,
}

impl View for SyncPayload {
    type V = PayloadView;

    open spec fn view(&self) -> PayloadView {
        PayloadView {
            schema_version: self.schema_version,
            workspace: self.workspace_id@,
            frontier: self.frontier@,
            operations: views(self.operations@),
        }
    }
}

/// The state of one entity.
#[derive(Debug, Clone, PartialEq)]
pub struct EntityState {
    pub metadata: TextMap<LwwValue>,
    pub content: ContentRegister,
    pub deleted_at: Option<Dot>,
}

/// What the state of an entity says.
pub struct EntityView {
    pub metadata: Map<Seq<char>, LwwView>,
    pub content: Seq<VersionView>,
    pub deleted_at: Option<DotView>,
}

impl View for EntityState {
    type V = EntityView;

    open spec fn view(&self) -> EntityView {
        EntityView {
            metadata: self.metadata@,
            content: self.content@,
            deleted_at: opt_view(self.deleted_at),
        }
    }
}

impl Plain for EntityState {
    fn duplicate(&self) -> (copy: Self) {
        EntityState {
            metadata: self.metadata.copied(),
            content: self.content.duplicate(),
            deleted_at: duplicate_opt(&self.deleted_at),
        }
    }

    fn same(&self, other: &Self) -> (equal: bool) {
        self.metadata.equals(&other.metadata) && self.content.same(&other.content) && same_opt(
            &self.deleted_at,
            &other.deleted_at,
        )
    }
}

impl EntityView {
    /// The value of a metadata field.
    pub open spec fn value(self, field: Seq<char>) -> Option<FieldView> {
        if self.metadata.contains_key(field) {
            Some(self.metadata[field].value)
        } else {
            None
        }
    }
}

/// The state of an entity of which nothing is known.
pub open spec fn blank_entity() -> EntityView {
    EntityView { metadata: Map::empty(), content: Seq::empty(), deleted_at: None }
}

/// The content assignment that an operation makes, if it makes one.
pub open spec fn assignment(operation: OperationView) -> Option<VersionView> {
    match operation.mutation {
        MutationView::SetContent { context, value } => Some(
            VersionView { dot: operation.dot, context, value },
        ),
        MutationView::ResolveContent { context, value } => Some(
            VersionView { dot: operation.dot, context, value },
        ),
        _ => None,
    }
}

/// A metadata table after a stamped value arrives.
pub open spec fn set_latest(
    metadata: Map<Seq<char>, LwwView>,
    field: Seq<char>,
    incoming: LwwView,
) -> Map<Seq<char>, LwwView> {
    metadata.insert(
        field,
        if metadata.contains_key(field) {
            latest(metadata[field], incoming)
        } else {
            incoming
        },
    )
}

/// The state of an entity after an operation arrives. A deleted one changes no more, but for the
/// event that stands for its deletion: the greatest one counts.
pub open spec fn entity_apply(state: EntityView, operation: OperationView) -> EntityView {
    if state.deleted_at is Some {
        if operation.mutation is Delete && dot_before(state.deleted_at->0, operation.dot) {
            EntityView { deleted_at: Some(operation.dot), ..state }
        } else {
            state
        }
    } else {
        match operation.mutation {
            MutationView::SetMetadata { field, value } => EntityView {
                metadata: set_latest(
                    state.metadata,
                    field,
                    LwwView { stamp: operation.dot, value },
                ),
                ..state
            },
            MutationView::Delete => EntityView { deleted_at: Some(operation.dot), ..state },
            _ => EntityView {
                content: register_apply(state.content, assignment(operation)->0),
                ..state
            },
        }
    }
}

impl Default for EntityState {
    fn default() -> (state: Self)
        ensures
            state@ == blank_entity(),
    {
        EntityState {
            metadata: TextMap::new(),
            content: ContentRegister::default(),
            deleted_at: None,
        }
    }
}

impl EntityState {
    /// Takes in an operation. The identifiers of entities are never reused, so that a deletion is
    /// permanent: a deleted entity takes in nothing more than a later deletion, which then stands
    /// for it.
    pub fn apply(&mut self, operation: &Operation)
        ensures
            final(self)@ == entity_apply(old(self)@, operation@),
    {
        if self.deleted_at.is_some() {
            let later = match (&self.deleted_at, &operation.mutation) {
                (Some(held), Mutation::Delete) => held.before(&operation.dot),
                _ => false,
            };
            if later {
                self.deleted_at = Some(operation.dot.duplicate());
            }
            return;
        }
        match &operation.mutation {
            Mutation::SetMetadata { field, value } => {
                let incoming = LwwValue {
                    stamp: operation.dot.duplicate(),
                    value: value.duplicate(),
                };
                let stored = match self.metadata.get(field.as_str()) {
                    Some(existing) => {
                        let mut held = existing.duplicate();
                        held.merge(incoming);
                        held
                    },
                    None => incoming,
                };
                self.metadata.insert(field.duplicate(), stored);
            },
            Mutation::SetContent { context, value } | Mutation::ResolveContent {
                context,
                value,
            } => {
                self.content.apply(
                    ContentVersion {
                        dot: operation.dot.duplicate(),
                        context: context.duplicate(),
                        value: value.duplicate(),
                    },
                );
            },
            Mutation::Delete => {
                self.deleted_at = Some(operation.dot.duplicate());
            },
        }
    }

    /// Whether the entity is deleted.
    pub fn is_deleted(&self) -> (deleted: bool)
        ensures
            deleted == (self@.deleted_at is Some),
    {
        self.deleted_at.is_some()
    }

    /// The value of a metadata field.
    pub fn value(&self, field: &str) -> (value: Option<&FieldValue>)
        ensures
            self@.value(field@) == match value {
                Some(found) => Some(found@),
                None => None,
            },
    {
        match self.metadata.get(field) {
            Some(stored) => Some(&stored.value),
            None => None,
        }
    }
}

} // verus!
