//! Value formatters attached to interpolated variables (`{{ var, number(...) }}`),
//! and the lenient parsing of their name and arguments.

use vstd::prelude::*;
use crate::text::str_eq;

verus! {

/// Width of a currency display.
#[derive(Debug, Clone, Copy, PartialEq, Eq, Structural, Hash, PartialOrd, Ord)]
pub enum CurrencyWidth {
    Short,
    Narrow,
}

/// Digit grouping of a number display.
#[derive(Debug, Clone, Copy, PartialEq, Eq, Structural, Hash, PartialOrd, Ord)]
pub enum GroupingStrategy {
    Auto,
    Never,
    Always,
    Min2,
}

/// Length of a date/time display.
#[derive(Debug, Clone, Copy, PartialEq, Eq, Structural, Hash, PartialOrd, Ord)]
pub enum DateTimeLength {
    Long,
    Medium,
    Short,
}

/// Alignment of a date/time display.
#[derive(Debug, Clone, Copy, PartialEq, Eq, Structural, Hash, PartialOrd, Ord)]
pub enum DateTimeAlignment {
    Auto,
    Column,
}

/// Number of sub-second digits of a time display.
#[derive(Debug, Clone, Copy, PartialEq, Eq, Structural, Hash, PartialOrd, Ord)]
pub enum DateTimeSubsecondDigits {
    S1,
    S2,
    S3,
    S4,
    S5,
    S6,
    S7,
    S8,
    S9,
}

/// Precision of a time display.
#[derive(Debug, Clone, Copy, PartialEq, Eq, Structural, Hash, PartialOrd, Ord)]
pub enum DateTimeTimePrecision {
    Hour,
    Minute,
    Second,
    Subsecond(DateTimeSubsecondDigits),
    MinuteOptional,
}

/// Year style of a date display.
#[derive(Debug, Clone, Copy, PartialEq, Eq, Structural, Hash, PartialOrd, Ord)]
pub enum DateTimeYearStyle {
    Auto,
    Full,
    WithEra,
}

/// Kind of list display.
#[derive(Debug, Clone, Copy, PartialEq, Eq, Structural, Hash, PartialOrd, Ord)]
pub enum ListType {
    And,
    Or,
    Unit,
}

/// Style of list display.
#[derive(Debug, Clone, Copy, PartialEq, Eq, Structural, Hash, PartialOrd, Ord)]
pub enum ListStyle {
    Wide,
    Short,
    Narrow,
}

/// A three-letter currency code, stored as up to three ASCII bytes padded with zeros.
#[derive(Debug, Clone, Copy, PartialEq, Eq, Structural, Hash, PartialOrd, Ord)]
pub struct CurrencyCode {
    pub b0: u8,
    pub b1: u8,
    pub b2: u8,
}

/// A formatter applied to a variable.
#[derive(Debug, Clone, Copy, PartialEq, Eq, Structural, Hash, PartialOrd, Ord)]
pub enum Formatter {
    Unformatted,
    Number(GroupingStrategy),
    Date(DateTimeLength, DateTimeAlignment, DateTimeYearStyle),
    Time(DateTimeLength, DateTimeAlignment, DateTimeTimePrecision),
    DateTime(DateTimeLength, DateTimeAlignment, DateTimeTimePrecision, DateTimeYearStyle),
    List(ListType, ListStyle),
    Currency(CurrencyWidth, CurrencyCode),
}

/// Which formatter families are enabled in this build.
#[derive(Debug, Clone, Copy, PartialEq, Eq, Structural)]
pub struct FormatterFeatures {
    pub currency: bool,
    pub nums: bool,
    pub datetime: bool,
    pub list: bool,
}

/// The three bytes of a code of at most three ASCII characters other than
/// NUL, padded with zero bytes; `None` for any other string.
pub open spec fn ascii3_code(s: Seq<char>) -> Option<(u8, u8, u8)> {
    if s.len() <= 3 && forall|i: int| 0 <= i < s.len() ==> 0 < (#[trigger] s[i] as u32) < 0x80 {
        Some(
            (
                if s.len() > 0 { s[0] as u8 } else { 0u8 },
                if s.len() > 1 { s[1] as u8 } else { 0u8 },
                if s.len() > 2 { s[2] as u8 } else { 0u8 },
            ),
        )
    } else {
        None
    }
}

/// The `Display` text of the error that
/// `tinystr::TinyAsciiStr::<3>::try_from_str` gives for a string it rejects.
pub uninterp spec fn tiny_ascii3_error(s: Seq<char>) -> Seq<char>;

/// The outcome of `tinystr::TinyAsciiStr::<3>::try_from_str` on a string:
/// the three stored bytes, or the text of the error.
pub open spec fn tiny_ascii3(s: Seq<char>) -> Result<(u8, u8, u8), Seq<char>> {
    match ascii3_code(s) {
        Some(b) => Ok(b),
        None => Err(tiny_ascii3_error(s)),
    }
}

/// Calls `tinystr::TinyAsciiStr::<3>::try_from_str`. The contract claims
/// what its source shows: the string is taken when its UTF-8 form is at
/// most three bytes, none of them NUL or outside ASCII, which is when it
/// is at most three ASCII characters other than NUL; the bytes are stored
/// in order and padded with zeros. The text of a rejection is left as a
/// name of the string.
#[verifier::external_body]
fn tiny_ascii3_from_str(s: &str) -> (res: Result<(u8, u8, u8), String>)
    ensures
        match res {
            Ok(b) => ascii3_code(s@) == Some(b),
            Err(e) => ascii3_code(s@) is None && e@ == tiny_ascii3_error(s@),
        },
{
    match tinystr::TinyAsciiStr::<3>::try_from_str(s) {
        Ok(code) => {
            let b = code.all_bytes();
            Ok((b[0], b[1], b[2]))
        },
        Err(e) => Err(format!("{}", e)),
    }
}

/// Reads a currency code: its three bytes, or the text of the rejection.
pub fn currency_code_from_str(s: &str) -> (res: Result<CurrencyCode, String>)
    ensures
        match res {
            Ok(c) => tiny_ascii3(s@) == Ok::<(u8, u8, u8), Seq<char>>((c.b0, c.b1, c.b2)),
            Err(e) => tiny_ascii3(s@) == Err::<(u8, u8, u8), Seq<char>>(e@),
        },
{
    match tiny_ascii3_from_str(s) {
        Ok((b0, b1, b2)) => Ok(CurrencyCode { b0, b1, b2 }),
        Err(e) => Err(e),
    }
}

/// A typed option that can be read from a formatter argument value.
pub trait ArgValue: Sized {
    /// The value named by an argument string, if any.
    spec fn spec_from_value(v: Seq<char>) -> Option<Self>;

    /// The value used when no argument gives one.
    spec fn spec_default() -> Self;

    fn from_value(v: &str) -> (res: Option<Self>)
        ensures
            res == Self::spec_from_value(v@),
    ;

    fn default_value() -> (res: Self)
        ensures
            res == Self::spec_default(),
    ;
}

/// The value the first argument named `name` whose value decodes gives, else the default.
pub open spec fn spec_from_args<T: ArgValue>(
    args: Seq<(Seq<char>, Option<Seq<char>>)>,
    name: Seq<char>,
) -> T
    decreases args.len(),
{
    if args.len() == 0 {
        T::spec_default()
    } else if args[0].0 == name && args[0].1 is Some && T::spec_from_value(
        args[0].1->0,
    ) is Some {
        T::spec_from_value(args[0].1->0)->0
    } else {
        spec_from_args::<T>(args.drop_first(), name)
    }
}

/// The views of formatter arguments.
pub open spec fn args_view(args: Seq<(&str, Option<&str>)>) -> Seq<(Seq<char>, Option<Seq<char>>)> {
    args.map_values(
        |a: (&str, Option<&str>)|
            (
                a.0@,
                match a.1 {
                    Some(v) => Some(v@),
                    None => None,
                },
            ),
    )
}

/// Reads the option named `name` from the arguments: the first argument of
/// that name whose value is recognised wins, otherwise the default is used.
pub fn from_args_helper<T: ArgValue>(args: Option<&[(&str, Option<&str>)]>, name: &str) -> (res: T)
    ensures
        args is None ==> res == T::spec_default(),
        args matches Some(a) ==> res == spec_from_args::<T>(args_view(a@), name@),
{
    let a = match args {
        None => return T::default_value(),
        Some(a) => a,
    };
    let n = a.len();
    let mut i: usize = 0;
    assert(args_view(a@).skip(0) =~= args_view(a@));
    while i < n
        invariant
            args == Some(a),
            n == a@.len(),
            i <= n,
            spec_from_args::<T>(args_view(a@), name@) == spec_from_args::<T>(
                args_view(a@).skip(i as int),
                name@,
            ),
        decreases n - i,
    {
        let (arg_name, value) = a[i];
        proof {
            assert(args_view(a@).skip(i as int).drop_first() =~= args_view(a@).skip(i + 1));
            assert(args_view(a@).skip(i as int)[0] == args_view(a@)[i as int]);
        }
        if str_eq(arg_name, name) {
            if let Some(v) = value {
                if let Some(x) = T::from_value(v) {
                    return x;
                }
            }
        }
        i = i + 1;
    }
    assert(args_view(a@).skip(n as int).len() == 0);
    T::default_value()
}

impl ArgValue for GroupingStrategy {
    open spec fn spec_from_value(v: Seq<char>) -> Option<Self> {
        if v == "auto"@ {
            Some(GroupingStrategy::Auto)
        } else if v == "never"@ {
            Some(GroupingStrategy::Never)
        } else if v == "always"@ {
            Some(GroupingStrategy::Always)
        } else if v == "min2"@ {
            Some(GroupingStrategy::Min2)
        } else {
            None
        }
    }

    open spec fn spec_default() -> Self {
        GroupingStrategy::Auto
    }

    fn from_value(v: &str) -> (res: Option<Self>) {
        if str_eq(v, "auto") {
            Some(GroupingStrategy::Auto)
        } else if str_eq(v, "never") {
            Some(GroupingStrategy::Never)
        } else if str_eq(v, "always") {
            Some(GroupingStrategy::Always)
        } else if str_eq(v, "min2") {
            Some(GroupingStrategy::Min2)
        } else {
            None
        }
    }

    fn default_value() -> (res: Self) {
        GroupingStrategy::Auto
    }
}

impl ArgValue for CurrencyWidth {
    open spec fn spec_from_value(v: Seq<char>) -> Option<Self> {
        if v == "short"@ {
            Some(CurrencyWidth::Short)
        } else if v == "narrow"@ {
            Some(CurrencyWidth::Narrow)
        } else {
            None
        }
    }

    open spec fn spec_default() -> Self {
        CurrencyWidth::Short
    }

    fn from_value(v: &str) -> (res: Option<Self>) {
        if str_eq(v, "short") {
            Some(CurrencyWidth::Short)
        } else if str_eq(v, "narrow") {
            Some(CurrencyWidth::Narrow)
        } else {
            None
        }
    }

    fn default_value() -> (res: Self) {
        CurrencyWidth::Short
    }
}

impl ArgValue for CurrencyCode {
    open spec fn spec_from_value(v: Seq<char>) -> Option<Self> {
        match tiny_ascii3(v) {
            Ok((b0, b1, b2)) => Some(CurrencyCode { b0, b1, b2 }),
            Err(_) => None,
        }
    }

    /// `USD`.
    open spec fn spec_default() -> Self {
        CurrencyCode { b0: 0x55, b1: 0x53, b2: 0x44 }
    }

    fn from_value(v: &str) -> (res: Option<Self>) {
        match tiny_ascii3_from_str(v) {
            Ok((b0, b1, b2)) => Some(CurrencyCode { b0, b1, b2 }),
            Err(_) => None,
        }
    }

    fn default_value() -> (res: Self) {
        CurrencyCode { b0: 0x55, b1: 0x53, b2: 0x44 }
    }
}

impl ArgValue for DateTimeLength {
    open spec fn spec_from_value(v: Seq<char>) -> Option<Self> {
        if v == "long"@ {
            Some(DateTimeLength::Long)
        } else if v == "medium"@ {
            Some(DateTimeLength::Medium)
        } else if v == "short"@ {
            Some(DateTimeLength::Short)
        } else {
            None
        }
    }

    open spec fn spec_default() -> Self {
        DateTimeLength::Medium
    }

    fn from_value(v: &str) -> (res: Option<Self>) {
        if str_eq(v, "long") {
            Some(DateTimeLength::Long)
        } else if str_eq(v, "medium") {
            Some(DateTimeLength::Medium)
        } else if str_eq(v, "short") {
            Some(DateTimeLength::Short)
        } else {
            None
        }
    }

    fn default_value() -> (res: Self) {
        DateTimeLength::Medium
    }
}

impl ArgValue for DateTimeAlignment {
    open spec fn spec_from_value(v: Seq<char>) -> Option<Self> {
        if v == "auto"@ {
            Some(DateTimeAlignment::Auto)
        } else if v == "column"@ {
            Some(DateTimeAlignment::Column)
        } else {
            None
        }
    }

    open spec fn spec_default() -> Self {
        DateTimeAlignment::Auto
    }

    fn from_value(v: &str) -> (res: Option<Self>) {
        if str_eq(v, "auto") {
            Some(DateTimeAlignment::Auto)
        } else if str_eq(v, "column") {
            Some(DateTimeAlignment::Column)
        } else {
            None
        }
    }

    fn default_value() -> (res: Self) {
        DateTimeAlignment::Auto
    }
}

impl ArgValue for DateTimeYearStyle {
    open spec fn spec_from_value(v: Seq<char>) -> Option<Self> {
        if v == "auto"@ {
            Some(DateTimeYearStyle::Auto)
        } else if v == "full"@ {
            Some(DateTimeYearStyle::Full)
        } else if v == "with_era"@ {
            Some(DateTimeYearStyle::WithEra)
        } else {
            None
        }
    }

    open spec fn spec_default() -> Self {
        DateTimeYearStyle::Auto
    }

    fn from_value(v: &str) -> (res: Option<Self>) {
        if str_eq(v, "auto") {
            Some(DateTimeYearStyle::Auto)
        } else if str_eq(v, "full") {
            Some(DateTimeYearStyle::Full)
        } else if str_eq(v, "with_era") {
            Some(DateTimeYearStyle::WithEra)
        } else {
            None
        }
    }

    fn default_value() -> (res: Self) {
        DateTimeYearStyle::Auto
    }
}

/// The time precision named by an argument value.
pub open spec fn spec_time_precision(v: Seq<char>) -> Option<DateTimeTimePrecision> {
    if v == "hour"@ {
        Some(DateTimeTimePrecision::Hour)
    } else if v == "minute"@ {
        Some(DateTimeTimePrecision::Minute)
    } else if v == "second"@ {
        Some(DateTimeTimePrecision::Second)
    } else if v == "subsecond_s1"@ {
        Some(DateTimeTimePrecision::Subsecond(DateTimeSubsecondDigits::S1))
    } else if v == "subsecond_s2"@ {
        Some(DateTimeTimePrecision::Subsecond(DateTimeSubsecondDigits::S2))
    } else if v == "subsecond_s3"@ {
        Some(DateTimeTimePrecision::Subsecond(DateTimeSubsecondDigits::S3))
    } else if v == "subsecond_s4"@ {
        Some(DateTimeTimePrecision::Subsecond(DateTimeSubsecondDigits::S4))
    } else if v == "subsecond_s5"@ {
        Some(DateTimeTimePrecision::Subsecond(DateTimeSubsecondDigits::S5))
    } else if v == "subsecond_s6"@ {
        Some(DateTimeTimePrecision::Subsecond(DateTimeSubsecondDigits::S6))
    } else if v == "subsecond_s7"@ {
        Some(DateTimeTimePrecision::Subsecond(DateTimeSubsecondDigits::S7))
    } else if v == "subsecond_s8"@ {
        Some(DateTimeTimePrecision::Subsecond(DateTimeSubsecondDigits::S8))
    } else if v == "subsecond_s9"@ {
        Some(DateTimeTimePrecision::Subsecond(DateTimeSubsecondDigits::S9))
    } else if v == "minute_optional"@ {
        Some(DateTimeTimePrecision::MinuteOptional)
    } else {
        None
    }
}

impl ArgValue for DateTimeTimePrecision {
    open spec fn spec_from_value(v: Seq<char>) -> Option<Self> {
        spec_time_precision(v)
    }

    open spec fn spec_default() -> Self {
        DateTimeTimePrecision::Second
    }

    fn from_value(v: &str) -> (res: Option<Self>) {
        if str_eq(v, "hour") {
            Some(DateTimeTimePrecision::Hour)
        } else if str_eq(v, "minute") {
            Some(DateTimeTimePrecision::Minute)
        } else if str_eq(v, "second") {
            Some(DateTimeTimePrecision::Second)
        } else if str_eq(v, "subsecond_s1") {
            Some(DateTimeTimePrecision::Subsecond(DateTimeSubsecondDigits::S1))
        } else if str_eq(v, "subsecond_s2") {
            Some(DateTimeTimePrecision::Subsecond(DateTimeSubsecondDigits::S2))
        } else if str_eq(v, "subsecond_s3") {
            Some(DateTimeTimePrecision::Subsecond(DateTimeSubsecondDigits::S3))
        } else if str_eq(v, "subsecond_s4") {
            Some(DateTimeTimePrecision::Subsecond(DateTimeSubsecondDigits::S4))
        } else if str_eq(v, "subsecond_s5") {
            Some(DateTimeTimePrecision::Subsecond(DateTimeSubsecondDigits::S5))
        } else if str_eq(v, "subsecond_s6") {
            Some(DateTimeTimePrecision::Subsecond(DateTimeSubsecondDigits::S6))
        } else if str_eq(v, "subsecond_s7") {
            Some(DateTimeTimePrecision::Subsecond(DateTimeSubsecondDigits::S7))
        } else if str_eq(v, "subsecond_s8") {
            Some(DateTimeTimePrecision::Subsecond(DateTimeSubsecondDigits::S8))
        } else if str_eq(v, "subsecond_s9") {
            Some(DateTimeTimePrecision::Subsecond(DateTimeSubsecondDigits::S9))
        } else if str_eq(v, "minute_optional") {
            Some(DateTimeTimePrecision::MinuteOptional)
        } else {
            None
        }
    }

    fn default_value() -> (res: Self) {
        DateTimeTimePrecision::Second
    }
}

impl ArgValue for ListType {
    open spec fn spec_from_value(v: Seq<char>) -> Option<Self> {
        if v == "and"@ {
            Some(ListType::And)
        } else if v == "or"@ {
            Some(ListType::Or)
        } else if v == "unit"@ {
            Some(ListType::Unit)
        } else {
            None
        }
    }

    open spec fn spec_default() -> Self {
        ListType::Unit
    }

    fn from_value(v: &str) -> (res: Option<Self>) {
        if str_eq(v, "and") {
            Some(ListType::And)
        } else if str_eq(v, "or") {
            Some(ListType::Or)
        } else if str_eq(v, "unit") {
            Some(ListType::Unit)
        } else {
            None
        }
    }

    fn default_value() -> (res: Self) {
        ListType::Unit
    }
}

impl ArgValue for ListStyle {
    open spec fn spec_from_value(v: Seq<char>) -> Option<Self> {
        if v == "wide"@ {
            Some(ListStyle::Wide)
        } else if v == "short"@ {
            Some(ListStyle::Short)
        } else if v == "narrow"@ {
            Some(ListStyle::Narrow)
        } else {
            None
        }
    }

    open spec fn spec_default() -> Self {
        ListStyle::Wide
    }

    fn from_value(v: &str) -> (res: Option<Self>) {
        if str_eq(v, "wide") {
            Some(ListStyle::Wide)
        } else if str_eq(v, "short") {
            Some(ListStyle::Short)
        } else if str_eq(v, "narrow") {
            Some(ListStyle::Narrow)
        } else {
            None
        }
    }

    fn default_value() -> (res: Self) {
        ListStyle::Wide
    }
}

/// The formatter named `name` with the given arguments: `Ok(None)` for an
/// unknown name, `Err(f)` when `f`'s family is not enabled.
pub open spec fn spec_from_name_and_args(
    name: Seq<char>,
    args: Option<Seq<(Seq<char>, Option<Seq<char>>)>>,
    features: FormatterFeatures,
) -> Result<Option<Formatter>, Formatter> {
    let a = match args {
        Some(a) => a,
        None => Seq::empty(),
    };
    if name == "currency"@ {
        let f = Formatter::Currency(
            spec_from_args::<CurrencyWidth>(a, "width"@),
            spec_from_args::<CurrencyCode>(a, "currency_code"@),
        );
        if features.currency { Ok(Some(f)) } else { Err(f) }
    } else if name == "number"@ {
        let f = Formatter::Number(spec_from_args::<GroupingStrategy>(a, "grouping_strategy"@));
        if features.nums { Ok(Some(f)) } else { Err(f) }
    } else if name == "datetime"@ {
        let f = Formatter::DateTime(
            spec_from_args::<DateTimeLength>(a, "length"@),
            spec_from_args::<DateTimeAlignment>(a, "alignment"@),
            spec_from_args::<DateTimeTimePrecision>(a, "time_precision"@),
            spec_from_args::<DateTimeYearStyle>(a, "alignment"@),
        );
        if features.datetime { Ok(Some(f)) } else { Err(f) }
    } else if name == "date"@ {
        let f = Formatter::Date(
            spec_from_args::<DateTimeLength>(a, "length"@),
            spec_from_args::<DateTimeAlignment>(a, "alignment"@),
            spec_from_args::<DateTimeYearStyle>(a, "alignment"@),
        );
        if features.datetime { Ok(Some(f)) } else { Err(f) }
    } else if name == "time"@ {
        let f = Formatter::Time(
            spec_from_args::<DateTimeLength>(a, "length"@),
            spec_from_args::<DateTimeAlignment>(a, "alignment"@),
            spec_from_args::<DateTimeTimePrecision>(a, "time_precision"@),
        );
        if features.datetime { Ok(Some(f)) } else { Err(f) }
    } else if name == "list"@ {
        let f = Formatter::List(
            spec_from_args::<ListType>(a, "list_type"@),
            spec_from_args::<ListStyle>(a, "list_style"@),
        );
        if features.list { Ok(Some(f)) } else { Err(f) }
    } else {
        Ok(None)
    }
}

proof fn lemma_from_args_none<T: ArgValue>(name: Seq<char>)
    ensures
        spec_from_args::<T>(Seq::empty(), name) == T::spec_default(),
{
}

impl Formatter {
    /// Recognises a formatter by name and reads its options from the
    /// arguments; unrecognised options fall back to their defaults.
    pub fn from_name_and_args(
        name: &str,
        args: Option<&[(&str, Option<&str>)]>,
        features: FormatterFeatures,
    ) -> (res: Result<Option<Formatter>, Formatter>)
        ensures
            res == spec_from_name_and_args(
                name@,
                match args {
                    Some(a) => Some(args_view(a@)),
                    None => None,
                },
                features,
            ),
    {
        proof {
            lemma_from_args_none::<CurrencyWidth>("width"@);
            lemma_from_args_none::<CurrencyCode>("currency_code"@);
            lemma_from_args_none::<GroupingStrategy>("grouping_strategy"@);
            lemma_from_args_none::<DateTimeLength>("length"@);
            lemma_from_args_none::<DateTimeAlignment>("alignment"@);
            lemma_from_args_none::<DateTimeTimePrecision>("time_precision"@);
            lemma_from_args_none::<DateTimeYearStyle>("alignment"@);
            lemma_from_args_none::<ListType>("list_type"@);
            lemma_from_args_none::<ListStyle>("list_style"@);
        }
        if str_eq(name, "currency") {
            let f = Formatter::Currency(
                from_args_helper::<CurrencyWidth>(args, "width"),
                from_args_helper::<CurrencyCode>(args, "currency_code"),
            );
            if features.currency { Ok(Some(f)) } else { Err(f) }
        } else if str_eq(name, "number") {
            let f = Formatter::Number(from_args_helper::<GroupingStrategy>(args, "grouping_strategy"));
            if features.nums { Ok(Some(f)) } else { Err(f) }
        } else if str_eq(name, "datetime") {
            let f = Formatter::DateTime(
                from_args_helper::<DateTimeLength>(args, "length"),
                from_args_helper::<DateTimeAlignment>(args, "alignment"),
                from_args_helper::<DateTimeTimePrecision>(args, "time_precision"),
                from_args_helper::<DateTimeYearStyle>(args, "alignment"),
            );
            if features.datetime { Ok(Some(f)) } else { Err(f) }
        } else if str_eq(name, "date") {
            let f = Formatter::Date(
                from_args_helper::<DateTimeLength>(args, "length"),
                from_args_helper::<DateTimeAlignment>(args, "alignment"),
                from_args_helper::<DateTimeYearStyle>(args, "alignment"),
            );
            if features.datetime { Ok(Some(f)) } else { Err(f) }
        } else if str_eq(name, "time") {
            let f = Formatter::Time(
                from_args_helper::<DateTimeLength>(args, "length"),
                from_args_helper::<DateTimeAlignment>(args, "alignment"),
                from_args_helper::<DateTimeTimePrecision>(args, "time_precision"),
            );
            if features.datetime { Ok(Some(f)) } else { Err(f) }
        } else if str_eq(name, "list") {
            let f = Formatter::List(
                from_args_helper::<ListType>(args, "list_type"),
                from_args_helper::<ListStyle>(args, "list_style"),
            );
            if features.list { Ok(Some(f)) } else { Err(f) }
        } else {
            Ok(None)
        }
    }

    /// The message reported when this formatter's family is disabled.
    pub fn err_message(&self) -> (res: &'static str)
        ensures
            res@ == spec_err_message(*self),
    {
        match self {
            Formatter::Unformatted => "",
            Formatter::Number(_) => "Formatting numbers is not enabled, enable the \"format_nums\" feature to do so",
            Formatter::Currency(_, _) => "Formatting currencies is not enabled, enable the \"format_currency\" feature to do so",
            Formatter::Date(_, _, _) => "Formatting dates is not enabled, enable the \"format_datetime\" feature to do so",
            Formatter::Time(_, _, _) => "Formatting time is not enabled, enable the \"format_datetime\" feature to do so",
            Formatter::DateTime(_, _, _, _) => "Formatting datetime is not enabled, enable the \"format_datetime\" feature to do so",
            Formatter::List(_, _) => "Formatting lists is not enabled, enable the \"format_list\" feature to do so",
        }
    }
}

/// The message reported when a formatter's family is disabled.
pub open spec fn spec_err_message(f: Formatter) -> Seq<char> {
    match f {
        Formatter::Unformatted => ""@,
        Formatter::Number(_) => "Formatting numbers is not enabled, enable the \"format_nums\" feature to do so"@,
        Formatter::Currency(_, _) => "Formatting currencies is not enabled, enable the \"format_currency\" feature to do so"@,
        Formatter::Date(_, _, _) => "Formatting dates is not enabled, enable the \"format_datetime\" feature to do so"@,
        Formatter::Time(_, _, _) => "Formatting time is not enabled, enable the \"format_datetime\" feature to do so"@,
        Formatter::DateTime(_, _, _, _) => "Formatting datetime is not enabled, enable the \"format_datetime\" feature to do so"@,
        Formatter::List(_, _) => "Formatting lists is not enabled, enable the \"format_list\" feature to do so"@,
    }
}

} // verus!
