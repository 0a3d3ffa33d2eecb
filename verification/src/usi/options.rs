//! The options that the engine declares, and the values that an operator has set.

use vstd::prelude::*;

use crate::search::budget::DEFAULT_DELIVERY_MARGIN_MS;
use crate::search::clock::Duration;
use crate::search::tt::DEFAULT_HASH_MB;
use crate::text::{decimal, parse_signed, push_integer, same_text, signed};

verus! {

/// Which option it is.
#[derive(Clone, Copy, Debug, PartialEq, Eq, Structural)]
pub enum Slot {
    HashMb,
    DeliveryMarginMs,
    Ponder,
}

/// What kind of control an option is, and its default.
#[derive(Clone, Copy, Debug, PartialEq, Eq, Structural)]
pub enum OptionKind {
    Check { default: bool },
    Spin { default: i64, min: i64, max: i64 },
}

/// The options, in the order in which they are declared.
pub const SLOTS: [Slot; 3] = [Slot::HashMb, Slot::DeliveryMarginMs, Slot::Ponder];

pub open spec fn option_name(slot: Slot) -> Seq<char> {
    match slot {
        Slot::HashMb => "USI_Hash"@,
        Slot::DeliveryMarginMs => "DeliveryMargin"@,
        Slot::Ponder => "USI_Ponder"@,
    }
}

pub open spec fn option_kind(slot: Slot) -> OptionKind {
    match slot {
        Slot::HashMb => OptionKind::Spin { default: 256, min: 1, max: 65_536 },
        Slot::DeliveryMarginMs => OptionKind::Spin { default: 30, min: 0, max: 10_000 },
        Slot::Ponder => OptionKind::Check { default: false },
    }
}

/// When an option that is not acted on yet will be.
pub open spec fn option_plan(slot: Slot) -> Option<Seq<char>> {
    match slot {
        Slot::HashMb => None,
        Slot::DeliveryMarginMs => None,
        Slot::Ponder => Some("E2, with ponder"@),
    }
}

/// The option that has this name.
pub open spec fn option_named(name: Seq<char>) -> Option<Slot> {
    if name == option_name(Slot::HashMb) {
        Some(Slot::HashMb)
    } else if name == option_name(Slot::DeliveryMarginMs) {
        Some(Slot::DeliveryMarginMs)
    } else if name == option_name(Slot::Ponder) {
        Some(Slot::Ponder)
    } else {
        None
    }
}

/// The line that declares an option.
pub open spec fn option_line(slot: Slot) -> Seq<char> {
    declaration_line(option_name(slot), option_kind(slot))
}

/// The line that declares an option of such a name and kind.
pub open spec fn declaration_line(name: Seq<char>, kind: OptionKind) -> Seq<char> {
    "option name "@ + name + " type "@ + match kind {
        OptionKind::Check { default } => "check default "@ + bool_text(default),
        OptionKind::Spin { default, min, max } => "spin default "@ + decimal(default as int)
            + " min "@ + decimal(min as int) + " max "@ + decimal(max as int),
    }
}

pub open spec fn bool_text(b: bool) -> Seq<char> {
    if b {
        "true"@
    } else {
        "false"@
    }
}

/// An option as it is declared.
#[derive(Clone, Copy, Debug)]
pub struct OptionSpec {
    pub name: &'static str,
    pub kind: OptionKind,
    pub slot: Slot,
    /// When the engine will act on the option, if it does not yet.
    pub planned: Option<&'static str>,
}

impl OptionSpec {
    /// Whether the declaration is the one of its slot.
    pub open spec fn is_declared(self) -> bool {
        &&& self.name@ == option_name(self.slot)
        &&& self.kind == option_kind(self.slot)
        &&& match self.planned {
            Some(planned) => option_plan(self.slot) == Some(planned@),
            None => option_plan(self.slot) is None,
        }
    }

    /// The line that declares the option.
    pub fn describe(&self) -> (r: String)
        ensures
            r@ == declaration_line(self.name@, self.kind),
    {
        let mut text = "option name ".to_owned();
        text.append(self.name);
        text.append(" type ");
        let ghost head = text@;
        match self.kind {
            OptionKind::Check { default } => {
                text.append("check default ");
                text.append(
                    if default {
                        "true"
                    } else {
                        "false"
                    },
                );
                assert(text@ =~= head + ("check default "@ + bool_text(default)));
            },
            OptionKind::Spin { default, min, max } => {
                text.append("spin default ");
                push_integer(&mut text, default);
                text.append(" min ");
                push_integer(&mut text, min);
                text.append(" max ");
                push_integer(&mut text, max);
                assert(text@ =~= head + ("spin default "@ + decimal(default as int) + " min "@
                    + decimal(min as int) + " max "@ + decimal(max as int)));
            },
        }
        text
    }
}

/// The declaration of an option.
pub fn declared(slot: Slot) -> (r: OptionSpec)
    ensures
        r.slot == slot,
        r.is_declared(),
{
    match slot {
        Slot::HashMb => OptionSpec {
            name: "USI_Hash",
            kind: OptionKind::Spin { default: DEFAULT_HASH_MB as i64, min: 1, max: 65_536 },
            slot,
            planned: None,
        },
        Slot::DeliveryMarginMs => OptionSpec {
            name: "DeliveryMargin",
            kind: OptionKind::Spin {
                default: DEFAULT_DELIVERY_MARGIN_MS as i64,
                min: 0,
                max: 10_000,
            },
            slot,
            planned: None,
        },
        Slot::Ponder => OptionSpec {
            name: "USI_Ponder",
            kind: OptionKind::Check { default: false },
            slot,
            planned: Some("E2, with ponder"),
        },
    }
}

/// Why an option was not set.
#[derive(Clone, Debug, PartialEq, Eq)]
pub enum OptionError {
    Unknown(String),
    MissingValue(&'static str),
    BadValue { name: &'static str, value: String },
    OutOfRange { name: &'static str, value: i64 },
}

/// What is wrong with setting an option.
#[verifier::ext_equal]
pub enum OptionFault {
    Unknown(Seq<char>),
    MissingValue(Seq<char>),
    BadValue { name: Seq<char>, value: Seq<char> },
    OutOfRange { name: Seq<char>, value: int },
}

impl View for OptionError {
    type V = OptionFault;

    open spec fn view(&self) -> OptionFault {
        match *self {
            OptionError::Unknown(name) => OptionFault::Unknown(name@),
            OptionError::MissingValue(name) => OptionFault::MissingValue(name@),
            OptionError::BadValue { name, value } => OptionFault::BadValue {
                name: name@,
                value: value@,
            },
            OptionError::OutOfRange { name, value } => OptionFault::OutOfRange {
                name: name@,
                value: value as int,
            },
        }
    }
}

/// What a fault reads as.
pub open spec fn option_fault_text(fault: OptionFault) -> Seq<char> {
    match fault {
        OptionFault::Unknown(name) => "unknown option `"@ + name + "`"@,
        OptionFault::MissingValue(name) => "option `"@ + name + "` needs a value"@,
        OptionFault::BadValue { name, value } => "option `"@ + name + "` cannot take `"@ + value
            + "`"@,
        OptionFault::OutOfRange { name, value } => "option `"@ + name + "` is out of range at "@
            + decimal(value),
    }
}

impl OptionError {
    /// The error in words.
    pub fn describe(&self) -> (r: String)
        ensures
            r@ == option_fault_text(self@),
    {
        match self {
            OptionError::Unknown(name) => {
                let mut text = "unknown option `".to_owned();
                text.append(name.as_str());
                text.append("`");
                text
            },
            OptionError::MissingValue(name) => {
                let mut text = "option `".to_owned();
                text.append(name);
                text.append("` needs a value");
                text
            },
            OptionError::BadValue { name, value } => {
                let mut text = "option `".to_owned();
                text.append(name);
                text.append("` cannot take `");
                text.append(value.as_str());
                text.append("`");
                text
            },
            OptionError::OutOfRange { name, value } => {
                let mut text = "option `".to_owned();
                text.append(name);
                text.append("` is out of range at ");
                push_integer(&mut text, *value);
                text
            },
        }
    }
}

/// The values that an operator has set.
#[derive(Clone, Copy, Debug, PartialEq, Eq, Structural)]
pub struct Options {
    pub hash_mb: i64,
    pub delivery_margin_ms: i64,
    pub ponder: bool,
}

impl Options {
    /// The values that are declared as the defaults.
    pub open spec fn defaults() -> Options {
        Options { hash_mb: 256, delivery_margin_ms: 30, ponder: false }
    }

    /// The values with one number set.
    pub open spec fn with_number(self, slot: Slot, value: i64) -> Options {
        match slot {
            Slot::HashMb => Options { hash_mb: value, ..self },
            Slot::DeliveryMarginMs => Options { delivery_margin_ms: value, ..self },
            Slot::Ponder => self,
        }
    }

    /// What setting an option comes to: the values with that one set, or what is
    /// wrong. A number has to be one, and within its bounds; a switch is `true`
    /// or `false`.
    pub open spec fn after(self, name: Seq<char>, value: Option<Seq<char>>) -> Result<
        (Slot, Options),
        OptionFault,
    > {
        match option_named(name) {
            None => Err(OptionFault::Unknown(name)),
            Some(slot) => match value {
                None => Err(OptionFault::MissingValue(name)),
                Some(value) => match option_kind(slot) {
                    OptionKind::Check { .. } => match switched(name, option_kind(slot), value) {
                        Ok(switch) => Ok((slot, Options { ponder: switch, ..self })),
                        Err(fault) => Err(fault),
                    },
                    OptionKind::Spin { .. } => match spun(name, option_kind(slot), value) {
                        Ok(number) => Ok((slot, self.with_number(slot, number as i64))),
                        Err(fault) => Err(fault),
                    },
                },
            },
        }
    }

    /// Whether an option has another value than its default.
    pub open spec fn changed(self, slot: Slot) -> bool {
        match slot {
            Slot::HashMb => self.hash_mb != Options::defaults().hash_mb,
            Slot::DeliveryMarginMs => self.delivery_margin_ms
                != Options::defaults().delivery_margin_ms,
            Slot::Ponder => self.ponder != Options::defaults().ponder,
        }
    }

    /// Whether an option has another value than the default of such a kind, which
    /// it has to be able to hold.
    pub open spec fn differs(self, slot: Slot, kind: OptionKind) -> bool {
        match (slot, kind) {
            (Slot::HashMb, OptionKind::Spin { default, .. }) => self.hash_mb != default,
            (Slot::DeliveryMarginMs, OptionKind::Spin { default, .. }) => self.delivery_margin_ms
                != default,
            (Slot::Ponder, OptionKind::Check { default }) => self.ponder != default,
            _ => false,
        }
    }

    /// The size of the table in MiB that the options ask for.
    pub open spec fn table_mb(self) -> int {
        if 0 <= self.hash_mb <= usize::MAX {
            self.hash_mb as int
        } else {
            256
        }
    }

    /// What the options keep back from the clock, in milliseconds.
    pub open spec fn margin_ms(self) -> int {
        if self.delivery_margin_ms >= 0 {
            self.delivery_margin_ms as int
        } else {
            30
        }
    }

    /// Sets an option, and returns which one it was. On an error nothing is set.
    pub fn set(&mut self, name: &str, value: Option<&str>) -> (r: Result<Slot, OptionError>)
        ensures
            ({
                let given = match value {
                    Some(value) => Some(value@),
                    None => None,
                };
                match r {
                    Ok(slot) => old(self).after(name@, given) == Ok::<(Slot, Options), OptionFault>(
                        (slot, *final(self)),
                    ),
                    Err(error) => *final(self) == *old(self) && old(self).after(name@, given)
                        == Err::<(Slot, Options), OptionFault>(error@),
                }
            }),
    {
        let slot = if same_text(name, "USI_Hash") {
            Slot::HashMb
        } else if same_text(name, "DeliveryMargin") {
            Slot::DeliveryMarginMs
        } else if same_text(name, "USI_Ponder") {
            Slot::Ponder
        } else {
            return Err(OptionError::Unknown(name.to_owned()));
        };
        let spec = declared(slot);
        let value = match value {
            Some(value) => value,
            None => return Err(OptionError::MissingValue(spec.name)),
        };
        match slot {
            Slot::HashMb => match spin(&spec, value) {
                Ok(number) => self.hash_mb = number,
                Err(error) => return Err(error),
            },
            Slot::DeliveryMarginMs => match spin(&spec, value) {
                Ok(number) => self.delivery_margin_ms = number,
                Err(error) => return Err(error),
            },
            Slot::Ponder => match check(&spec, value) {
                Ok(switch) => self.ponder = switch,
                Err(error) => return Err(error),
            },
        }
        Ok(slot)
    }

    /// The size of the table, in MiB.
    pub fn hash_mb(&self) -> (r: usize)
        ensures
            r == (if 0 <= self.hash_mb <= usize::MAX {
                self.hash_mb as int
            } else {
                DEFAULT_HASH_MB as int
            }),
            r == self.table_mb(),
    {
        if self.hash_mb < 0 {
            return DEFAULT_HASH_MB;
        }
        let wide: u64 = self.hash_mb as u64;
        if wide > usize::MAX as u64 {
            return DEFAULT_HASH_MB;
        }
        wide as usize
    }

    /// What a search keeps back from the clock.
    pub fn delivery_margin(&self) -> (r: Duration)
        ensures
            r == Duration::of_millis(
                if self.delivery_margin_ms >= 0 {
                    self.delivery_margin_ms as int
                } else {
                    30
                },
            ),
            r == Duration::of_millis(self.margin_ms()),
    {
        if self.delivery_margin_ms < 0 {
            return Duration::from_millis(DEFAULT_DELIVERY_MARGIN_MS);
        }
        Duration::from_millis(self.delivery_margin_ms as u64)
    }

    /// Whether the option has another value than the default that is declared. A
    /// slot that is declared with a control it cannot hold counts as unchanged.
    pub fn differs_from_default(&self, spec: &OptionSpec) -> (r: bool)
        ensures
            r == self.differs(spec.slot, spec.kind),
            spec.is_declared() ==> r == self.changed(spec.slot),
    {
        match (spec.slot, spec.kind) {
            (Slot::HashMb, OptionKind::Spin { default, .. }) => self.hash_mb != default,
            (Slot::DeliveryMarginMs, OptionKind::Spin { default, .. }) => {
                self.delivery_margin_ms != default
            },
            (Slot::Ponder, OptionKind::Check { default }) => self.ponder != default,
            _ => false,
        }
    }

    /// The options that were changed and are not acted on yet, each with when it
    /// will be.
    pub fn unhonoured_changes(&self) -> (r: Vec<(&'static str, &'static str)>)
        ensures
            r@.map(|i: int, pair: (&'static str, &'static str)| (pair.0@, pair.1@))
                == unhonoured(*self, 3),
    {
        let mut list: Vec<(&'static str, &'static str)> = Vec::new();
        let mut i: usize = 0;
        assert(list@.map(|i: int, pair: (&'static str, &'static str)| (pair.0@, pair.1@))
            =~= unhonoured(*self, 0));
        while i < 3
            invariant
                i <= 3,
                list@.map(|i: int, pair: (&'static str, &'static str)| (pair.0@, pair.1@))
                    == unhonoured(*self, i as int),
            decreases 3 - i,
        {
            let spec = declared(SLOTS[i]);
            if self.differs_from_default(&spec) {
                if let Some(planned) = spec.planned {
                    list.push((spec.name, planned));
                }
            }
            i += 1;
            assert(list@.map(|i: int, pair: (&'static str, &'static str)| (pair.0@, pair.1@))
                =~= unhonoured(*self, i as int));
        }
        list
    }
}

/// The first `n` options, as far as they were changed and are not acted on yet,
/// each with when it will be.
pub open spec fn unhonoured(options: Options, n: int) -> Seq<(Seq<char>, Seq<char>)>
    decreases n,
{
    if n <= 0 {
        Seq::empty()
    } else {
        let slot = SLOTS@[n - 1];
        if options.changed(slot) && option_plan(slot) is Some {
            unhonoured(options, n - 1).push((option_name(slot), option_plan(slot)->0))
        } else {
            unhonoured(options, n - 1)
        }
    }
}

impl Default for Options {
    fn default() -> (r: Options)
        ensures
            r == Options::defaults(),
    {
        Options {
            hash_mb: DEFAULT_HASH_MB as i64,
            delivery_margin_ms: DEFAULT_DELIVERY_MARGIN_MS as i64,
            ponder: false,
        }
    }
}

/// What a value comes to for a number: the number, which has to lie within the
/// bounds. An option of another kind cannot take it.
pub open spec fn spun(name: Seq<char>, kind: OptionKind, value: Seq<char>) -> Result<
    int,
    OptionFault,
> {
    match (kind, signed(value)) {
        (OptionKind::Spin { min, max, .. }, Some(number)) => if number < min || number > max {
            Err(OptionFault::OutOfRange { name, value: number })
        } else {
            Ok(number)
        },
        _ => Err(OptionFault::BadValue { name, value }),
    }
}

/// What a value comes to for a switch, which is `true` or `false`. An option of
/// another kind cannot take it.
pub open spec fn switched(name: Seq<char>, kind: OptionKind, value: Seq<char>) -> Result<
    bool,
    OptionFault,
> {
    if kind is Check && value == "true"@ {
        Ok(true)
    } else if kind is Check && value == "false"@ {
        Ok(false)
    } else {
        Err(OptionFault::BadValue { name, value })
    }
}

/// Reads the value of a number.
pub fn spin(spec: &OptionSpec, value: &str) -> (r: Result<i64, OptionError>)
    ensures
        match r {
            Ok(number) => spun(spec.name@, spec.kind, value@) == Ok::<int, OptionFault>(
                number as int,
            ),
            Err(error) => spun(spec.name@, spec.kind, value@) == Err::<int, OptionFault>(error@),
        },
{
    match (spec.kind, parse_signed(value)) {
        (OptionKind::Spin { min, max, .. }, Some(number)) => {
            if number < min || number > max {
                Err(OptionError::OutOfRange { name: spec.name, value: number })
            } else {
                Ok(number)
            }
        },
        _ => Err(OptionError::BadValue { name: spec.name, value: value.to_owned() }),
    }
}

/// Reads the value of a switch.
pub fn check(spec: &OptionSpec, value: &str) -> (r: Result<bool, OptionError>)
    ensures
        match r {
            Ok(switch) => switched(spec.name@, spec.kind, value@) == Ok::<bool, OptionFault>(switch),
            Err(error) => switched(spec.name@, spec.kind, value@) == Err::<bool, OptionFault>(
                error@,
            ),
        },
{
    let is_switch = match spec.kind {
        OptionKind::Check { .. } => true,
        OptionKind::Spin { .. } => false,
    };
    if is_switch && same_text(value, "true") {
        Ok(true)
    } else if is_switch && same_text(value, "false") {
        Ok(false)
    } else {
        Err(OptionError::BadValue { name: spec.name, value: value.to_owned() })
    }
}

/// Setting one option leaves the others alone, and a number that is set lies
/// within the bounds that are declared.
pub proof fn law_setting_one_option_leaves_the_others(
    options: Options,
    name: Seq<char>,
    value: Option<Seq<char>>,
    other: Slot,
)
    requires
        options.after(name, value) is Ok,
        options.after(name, value)->Ok_0.0 != other,
    ensures
        options.after(name, value)->Ok_0.1.changed(other) == options.changed(other),
{
}

impl Options {
    /// Whether every number lies within the bounds that are declared for it.
    pub open spec fn within_bounds(self) -> bool {
        &&& 1 <= self.hash_mb <= 65_536
        &&& 0 <= self.delivery_margin_ms <= 10_000
    }
}

/// The defaults lie within the bounds, and no setting leads out of them.
pub proof fn law_options_stay_within_bounds(
    options: Options,
    name: Seq<char>,
    value: Option<Seq<char>>,
)
    ensures
        Options::defaults().within_bounds(),
        options.within_bounds() && options.after(name, value) is Ok ==> options.after(
            name,
            value,
        )->Ok_0.1.within_bounds(),
{
}

/// Every option is found by its name.
pub proof fn law_every_option_is_found_by_its_name(slot: Slot)
    ensures
        option_named(option_name(slot)) == Some(slot),
{
    reveal_strlit("USI_Hash");
    reveal_strlit("DeliveryMargin");
    reveal_strlit("USI_Ponder");
    assert("USI_Hash"@.len() == 8);
    assert("DeliveryMargin"@.len() == 14);
    assert("USI_Ponder"@.len() == 10);
}

/// A number is set as it is spelled, where it lies within the declared bounds,
/// and a switch as `true` or `false` says; everything else is refused, and by the
/// first thing that is wrong with it: the name, then that there is no value, then
/// the value.
pub proof fn law_a_number_is_set_as_it_is_spelled(
    options: Options,
    name: Seq<char>,
    value: Option<Seq<char>>,
)
    ensures
        ({
            let set = options.after(name, value);
            &&& name != "USI_Hash"@ && name != "DeliveryMargin"@ && name != "USI_Ponder"@ ==> set
                == Err::<(Slot, Options), OptionFault>(OptionFault::Unknown(name))
            &&& (name == "USI_Hash"@ || name == "DeliveryMargin"@ || name == "USI_Ponder"@) && value
                is None ==> set == Err::<(Slot, Options), OptionFault>(
                OptionFault::MissingValue(name),
            )
            &&& name == "USI_Hash"@ && value is Some ==> match signed(value->0) {
                None => set == Err::<(Slot, Options), OptionFault>(
                    OptionFault::BadValue { name, value: value->0 },
                ),
                Some(n) => if 1 <= n <= 65_536 {
                    set is Ok && set->Ok_0.0 == Slot::HashMb && set->Ok_0.1.hash_mb == n
                        && set->Ok_0.1.delivery_margin_ms == options.delivery_margin_ms
                        && set->Ok_0.1.ponder == options.ponder
                } else {
                    set == Err::<(Slot, Options), OptionFault>(
                        OptionFault::OutOfRange { name, value: n },
                    )
                },
            }
            &&& name == "DeliveryMargin"@ && value is Some ==> match signed(value->0) {
                None => set == Err::<(Slot, Options), OptionFault>(
                    OptionFault::BadValue { name, value: value->0 },
                ),
                Some(n) => if 0 <= n <= 10_000 {
                    set is Ok && set->Ok_0.0 == Slot::DeliveryMarginMs
                        && set->Ok_0.1.delivery_margin_ms == n && set->Ok_0.1.hash_mb
                        == options.hash_mb && set->Ok_0.1.ponder == options.ponder
                } else {
                    set == Err::<(Slot, Options), OptionFault>(
                        OptionFault::OutOfRange { name, value: n },
                    )
                },
            }
            &&& name == "USI_Ponder"@ && value is Some ==> {
                if value->0 == "true"@ || value->0 == "false"@ {
                    set is Ok && set->Ok_0.0 == Slot::Ponder && set->Ok_0.1.ponder == (value->0
                        == "true"@) && set->Ok_0.1.hash_mb == options.hash_mb
                        && set->Ok_0.1.delivery_margin_ms == options.delivery_margin_ms
                } else {
                    set == Err::<(Slot, Options), OptionFault>(
                        OptionFault::BadValue { name, value: value->0 },
                    )
                }
            }
        }),
{
    reveal_strlit("USI_Hash");
    reveal_strlit("DeliveryMargin");
    reveal_strlit("USI_Ponder");
    reveal_strlit("true");
    reveal_strlit("false");
    assert("USI_Hash"@.len() == 8);
    assert("DeliveryMargin"@.len() == 14);
    assert("USI_Ponder"@.len() == 10);
    assert("true"@.len() == 4);
    assert("false"@.len() == 5);
}

/// What is set is what is changed: an option counts as changed exactly if its
/// value is not the declared default.
pub proof fn law_a_change_is_another_value_than_the_default(options: Options)
    ensures
        options.changed(Slot::HashMb) <==> options.hash_mb != 256,
        options.changed(Slot::DeliveryMarginMs) <==> options.delivery_margin_ms != 30,
        options.changed(Slot::Ponder) <==> options.ponder,
        Options::defaults().hash_mb == option_kind(Slot::HashMb)->Spin_default,
        Options::defaults().delivery_margin_ms == option_kind(Slot::DeliveryMarginMs)->Spin_default,
        Options::defaults().ponder == option_kind(Slot::Ponder)->Check_default,
{
}

/// What is asked for is what was set, as long as it lies within the declared
/// bounds; and no setting leads out of them.
pub proof fn law_what_is_set_is_asked_for(options: Options)
    requires
        options.within_bounds(),
        usize::MAX >= 65_536,
    ensures
        options.table_mb() == options.hash_mb,
        options.margin_ms() == options.delivery_margin_ms,
        1 <= options.table_mb() <= 65_536,
        0 <= options.margin_ms() <= 10_000,
{
}

} // verus!
