//! The formatter parsers: each reads the arguments of one formatter family
//! (`number`, `currency`, `list`, `datetime`, `date`, `time`), checking every
//! argument name and value, and builds the formatter with the defaults for
//! the arguments not given.

use vstd::prelude::*;
use crate::error::{ErrV, Error, errs_view, lemma_errs_push};
use crate::formatter::{
    ArgValue, CurrencyCode, CurrencyWidth, DateTimeAlignment, DateTimeLength, DateTimeTimePrecision,
    DateTimeYearStyle, GroupingStrategy, ListStyle, ListType, args_view, currency_code_from_str, tiny_ascii3,
};
use crate::formatter::Formatter;
use crate::key::{Key, KeyPath, KeyPathV};
use crate::value::VarBound;
use crate::text::{str_eq, to_owned};

verus! {

/// The formatter families.
#[derive(Debug, Clone, Copy, PartialEq, Eq, Structural)]
pub enum FormatterKind {
    Currency,
    Number,
    List,
    DateTime,
    Date,
    Time,
}

/// The value of one formatter argument.
#[derive(Debug, Clone, Copy, PartialEq, Eq, Structural)]
pub enum FieldValue {
    Width(CurrencyWidth),
    Code(CurrencyCode),
    Grouping(GroupingStrategy),
    ListType(ListType),
    ListStyle(ListStyle),
    Length(DateTimeLength),
    Alignment(DateTimeAlignment),
    Precision(DateTimeTimePrecision),
    YearStyle(DateTimeYearStyle),
}

/// The argument names of a family, in the order of its formatter's fields.
pub open spec fn kind_fields(k: FormatterKind) -> Seq<Seq<char>> {
    match k {
        FormatterKind::Currency => seq!["width"@, "currency_code"@],
        FormatterKind::Number => seq!["grouping_strategy"@],
        FormatterKind::List => seq!["list_type"@, "list_style"@],
        FormatterKind::DateTime => seq!["length"@, "alignment"@, "time_precision"@, "year_style"@],
        FormatterKind::Date => seq!["length"@, "alignment"@, "year_style"@],
        FormatterKind::Time => seq!["length"@, "alignment"@, "time_precision"@],
    }
}

/// The message of a family that is not enabled.
pub open spec fn disabled_message(k: FormatterKind) -> Seq<char> {
    match k {
        FormatterKind::Currency => "Formatting currencies is not enabled, enable the \"format_currency\" feature to do so"@,
        FormatterKind::Number => "Formatting numbers is not enabled, enable the \"format_nums\" feature to do so"@,
        FormatterKind::List => "Formatting lists is not enabled, enable the \"format_list\" feature to do so"@,
        FormatterKind::DateTime => "Formatting datetime is not enabled, enable the \"format_datetime\" feature to do so"@,
        FormatterKind::Date => "Formatting date is not enabled, enable the \"format_datetime\" feature to do so"@,
        FormatterKind::Time => "Formatting time is not enabled, enable the \"format_datetime\" feature to do so"@,
    }
}

/// The value of an option argument: the option it names, or an error when
/// the value is missing or names no option.
pub open spec fn strict_value<T: ArgValue>(arg: Option<Seq<char>>) -> Result<T, Seq<char>> {
    match arg {
        None => Err("missing value for argument"@),
        Some(v) => match T::spec_from_value(v) {
            Some(x) => Ok(x),
            None => Err("unknown argument value"@),
        },
    }
}

pub open spec fn wrap<T>(r: Result<T, Seq<char>>, f: spec_fn(T) -> FieldValue) -> Result<FieldValue, Seq<char>> {
    match r {
        Ok(x) => Ok(f(x)),
        Err(e) => Err(e),
    }
}

/// The value of the argument of field `i` of a family.
pub open spec fn field_value(k: FormatterKind, i: int, arg: Option<Seq<char>>) -> Result<FieldValue, Seq<char>> {
    let name = kind_fields(k)[i];
    if name == "width"@ {
        wrap(strict_value::<CurrencyWidth>(arg), |x: CurrencyWidth| FieldValue::Width(x))
    } else if name == "currency_code"@ {
        match arg {
            None => Err("missing currency code"@),
            Some(v) => match tiny_ascii3(v) {
                Ok((b0, b1, b2)) => Ok(FieldValue::Code(CurrencyCode { b0, b1, b2 })),
                Err(e) => Err("Invalid code: "@ + e),
            },
        }
    } else if name == "grouping_strategy"@ {
        wrap(strict_value::<GroupingStrategy>(arg), |x: GroupingStrategy| FieldValue::Grouping(x))
    } else if name == "list_type"@ {
        wrap(strict_value::<ListType>(arg), |x: ListType| FieldValue::ListType(x))
    } else if name == "list_style"@ {
        wrap(strict_value::<ListStyle>(arg), |x: ListStyle| FieldValue::ListStyle(x))
    } else if name == "length"@ {
        wrap(strict_value::<DateTimeLength>(arg), |x: DateTimeLength| FieldValue::Length(x))
    } else if name == "alignment"@ {
        wrap(strict_value::<DateTimeAlignment>(arg), |x: DateTimeAlignment| FieldValue::Alignment(x))
    } else if name == "time_precision"@ {
        wrap(strict_value::<DateTimeTimePrecision>(arg), |x: DateTimeTimePrecision| FieldValue::Precision(x))
    } else {
        wrap(strict_value::<DateTimeYearStyle>(arg), |x: DateTimeYearStyle| FieldValue::YearStyle(x))
    }
}

/// The index of an argument name among a family's fields.
pub open spec fn field_index(k: FormatterKind, name: Seq<char>) -> Option<int> {
    let f = kind_fields(k);
    if exists|i: int| 0 <= i < f.len() && f[i] == name {
        Some(choose|i: int| 0 <= i < f.len() && f[i] == name)
    } else {
        None
    }
}

/// The state of an argument scan: a slot per field, whether an argument
/// name was unknown, and the errors reported.
pub struct ScanV {
    pub slots: Seq<Option<FieldValue>>,
    pub errored: bool,
    pub errs: Seq<ErrV>,
}

/// The scan after one argument: an unknown name is reported and marks the
/// scan as failed; a bad value is reported; a good value fills its slot
/// (a slot already filled is replaced, and reported as a duplicate).
pub open spec fn scan_step(
    k: FormatterKind,
    st: ScanV,
    a: (Seq<char>, Option<Seq<char>>),
    locale: Seq<char>,
    kp: KeyPathV,
) -> ScanV {
    match field_index(k, a.0) {
        None => ScanV {
            slots: st.slots,
            errored: true,
            errs: st.errs.push(
                ErrV::InvalidFormatterArgName { locale, key_path: kp, name: a.0, err: "unknown argument name"@ },
            ),
        },
        Some(i) => match field_value(k, i, a.1) {
            Err(e) => ScanV {
                errs: st.errs.push(
                    ErrV::InvalidFormatterArg { locale, key_path: kp, arg_name: a.0, arg: a.1, err: e },
                ),
                ..st
            },
            Ok(v) => ScanV {
                slots: st.slots.update(i, Some(v)),
                errored: st.errored,
                errs: if st.slots[i] is Some {
                    st.errs.push(
                        ErrV::InvalidFormatterArg {
                            locale,
                            key_path: kp,
                            arg_name: a.0,
                            arg: a.1,
                            err: "duplicate argument"@,
                        },
                    )
                } else {
                    st.errs
                },
            },
        },
    }
}

pub open spec fn scan(
    k: FormatterKind,
    st: ScanV,
    args: Seq<(Seq<char>, Option<Seq<char>>)>,
    locale: Seq<char>,
    kp: KeyPathV,
) -> ScanV
    decreases args.len(),
{
    if args.len() == 0 {
        st
    } else {
        scan(k, scan_step(k, st, args[0], locale, kp), args.drop_first(), locale, kp)
    }
}

/// The scan of all arguments of a family, starting with the report of a
/// disabled family.
pub open spec fn spec_scan_args(
    k: FormatterKind,
    args: Seq<(Seq<char>, Option<Seq<char>>)>,
    enabled: bool,
    locale: Seq<char>,
    kp: KeyPathV,
) -> ScanV {
    let e0 = if enabled {
        Seq::<ErrV>::empty()
    } else {
        seq![ErrV::DisabledFormatter { locale, key_path: kp, formatter_err: disabled_message(k) }]
    };
    let slots = Seq::new(kind_fields(k).len(), |i: int| None::<FieldValue>);
    scan(k, ScanV { slots, errored: false, errs: e0 }, args, locale, kp)
}

fn str_result<T>(r: Result<T, &'static str>) -> (res: Result<T, String>)
    ensures
        match (r, res) {
            (Ok(a), Ok(b)) => a == b,
            (Err(a), Err(b)) => a@ == b@,
            _ => false,
        },
{
    match r {
        Ok(x) => Ok(x),
        Err(e) => Err(to_owned(e)),
    }
}

fn strict_from_arg<T: ArgValue>(arg: Option<&str>) -> (res: Result<T, &'static str>)
    ensures
        match (strict_value::<T>(match arg {
            Some(a) => Some(a@),
            None => None,
        }), res) {
            (Ok(a), Ok(b)) => a == b,
            (Err(a), Err(b)) => a == b@,
            _ => false,
        },
{
    match arg {
        None => Err("missing value for argument"),
        Some(v) => match T::from_value(v) {
            Some(x) => Ok(x),
            None => Err("unknown argument value"),
        },
    }
}

fn kind_field_names(k: FormatterKind) -> (res: Vec<&'static str>)
    ensures
        res@.map_values(|s: &str| s@) == kind_fields(k),
{
    let v: Vec<&'static str> = match k {
        FormatterKind::Currency => vec!["width", "currency_code"],
        FormatterKind::Number => vec!["grouping_strategy"],
        FormatterKind::List => vec!["list_type", "list_style"],
        FormatterKind::DateTime => vec!["length", "alignment", "time_precision", "year_style"],
        FormatterKind::Date => vec!["length", "alignment", "year_style"],
        FormatterKind::Time => vec!["length", "alignment", "time_precision"],
    };
    assert(v@.map_values(|s: &str| s@) =~= kind_fields(k));
    v
}

fn disabled_message_str(k: FormatterKind) -> (res: &'static str)
    ensures
        res@ == disabled_message(k),
{
    match k {
        FormatterKind::Currency => "Formatting currencies is not enabled, enable the \"format_currency\" feature to do so",
        FormatterKind::Number => "Formatting numbers is not enabled, enable the \"format_nums\" feature to do so",
        FormatterKind::List => "Formatting lists is not enabled, enable the \"format_list\" feature to do so",
        FormatterKind::DateTime => "Formatting datetime is not enabled, enable the \"format_datetime\" feature to do so",
        FormatterKind::Date => "Formatting date is not enabled, enable the \"format_datetime\" feature to do so",
        FormatterKind::Time => "Formatting time is not enabled, enable the \"format_datetime\" feature to do so",
    }
}

fn field_value_exec(k: FormatterKind, name: &str, arg: Option<&str>, Ghost(i): Ghost<int>) -> (res: Result<FieldValue, String>)
    requires
        0 <= i < kind_fields(k).len(),
        kind_fields(k)[i] == name@,
    ensures
        match (field_value(k, i, match arg {
            Some(a) => Some(a@),
            None => None,
        }), res) {
            (Ok(a), Ok(b)) => a == b,
            (Err(a), Err(b)) => a == b@,
            _ => false,
        },
{
    if str_eq(name, "width") {
        match str_result(strict_from_arg::<CurrencyWidth>(arg)) {
            Ok(x) => Ok(FieldValue::Width(x)),
            Err(e) => Err(e),
        }
    } else if str_eq(name, "currency_code") {
        match arg {
            None => Err(to_owned("missing currency code")),
            Some(v) => match currency_code_from_str(v) {
                Ok(c) => Ok(FieldValue::Code(c)),
                Err(e) => {
                    let mut s = to_owned("Invalid code: ");
                    s.append(e.as_str());
                    Err(s)
                },
            },
        }
    } else if str_eq(name, "grouping_strategy") {
        match str_result(strict_from_arg::<GroupingStrategy>(arg)) {
            Ok(x) => Ok(FieldValue::Grouping(x)),
            Err(e) => Err(e),
        }
    } else if str_eq(name, "list_type") {
        match str_result(strict_from_arg::<ListType>(arg)) {
            Ok(x) => Ok(FieldValue::ListType(x)),
            Err(e) => Err(e),
        }
    } else if str_eq(name, "list_style") {
        match str_result(strict_from_arg::<ListStyle>(arg)) {
            Ok(x) => Ok(FieldValue::ListStyle(x)),
            Err(e) => Err(e),
        }
    } else if str_eq(name, "length") {
        match str_result(strict_from_arg::<DateTimeLength>(arg)) {
            Ok(x) => Ok(FieldValue::Length(x)),
            Err(e) => Err(e),
        }
    } else if str_eq(name, "alignment") {
        match str_result(strict_from_arg::<DateTimeAlignment>(arg)) {
            Ok(x) => Ok(FieldValue::Alignment(x)),
            Err(e) => Err(e),
        }
    } else if str_eq(name, "time_precision") {
        match str_result(strict_from_arg::<DateTimeTimePrecision>(arg)) {
            Ok(x) => Ok(FieldValue::Precision(x)),
            Err(e) => Err(e),
        }
    } else {
        match str_result(strict_from_arg::<DateTimeYearStyle>(arg)) {
            Ok(x) => Ok(FieldValue::YearStyle(x)),
            Err(e) => Err(e),
        }
    }
}

fn find_field(names: &Vec<&'static str>, name: &str, Ghost(k): Ghost<FormatterKind>) -> (res: Option<usize>)
    requires
        names@.map_values(|s: &str| s@) == kind_fields(k),
    ensures
        match res {
            Some(i) => field_index(k, name@) == Some(i as int) && i < names@.len(),
            None => field_index(k, name@) is None,
        },
{
    let ghost f = kind_fields(k);
    let mut i: usize = 0;
    while i < names.len()
        invariant
            names@.map_values(|s: &str| s@) == f,
            f == kind_fields(k),
            i <= names@.len(),
            forall|j: int| 0 <= j < i ==> f[j] != name@,
        decreases names@.len() - i,
    {
        assert(f[i as int] == names@[i as int]@);
        if str_eq(names[i], name) {
            proof {
                let c = choose|c: int| 0 <= c < f.len() && f[c] == name@;
                assert(f.len() == names@.len());
                if c != i as int {
                    assert(f[c] != f[i as int]) by {
                        assert(c > i);
                        assert(f.len() <= 4);
                        reveal_strlit("width");
                        reveal_strlit("currency_code");
                        reveal_strlit("grouping_strategy");
                        reveal_strlit("list_type");
                        reveal_strlit("list_style");
                        reveal_strlit("length");
                        reveal_strlit("alignment");
                        reveal_strlit("time_precision");
                        reveal_strlit("year_style");
                    }
                }
            }
            return Some(i);
        }
        i = i + 1;
    }
    None
}

/// Scans the arguments of a family (see `spec_scan_args`): the slots of its
/// fields, `None` when an argument name was unknown; the errors are
/// reported in `diag`.
pub fn scan_args(
    k: FormatterKind,
    locale: &Key,
    key_path: &KeyPath,
    args: &[(&str, Option<&str>)],
    enabled: bool,
    diag: &mut Vec<Error>,
) -> (res: Option<Vec<Option<FieldValue>>>)
    ensures
        ({
            let st = spec_scan_args(k, args_view(args@), enabled, locale@, key_path@);
            &&& errs_view(final(diag)@) == errs_view(old(diag)@) + st.errs
            &&& st.errored ==> res is None
            &&& !st.errored ==> (res matches Some(v) && v@ == st.slots)
        }),
{
    let ghost av = args_view(args@);
    let ghost d0 = errs_view(diag@);
    let ghost mut errs: Seq<ErrV> = Seq::empty();
    if !enabled {
        let e = Error::DisabledFormatter {
            locale: locale.copy(),
            key_path: key_path.copy(),
            formatter_err: to_owned(disabled_message_str(k)),
        };
        let ghost dd = diag@;
        let ghost ev = e@;
        diag.push(e);
        proof {
            lemma_errs_push(dd, e);
            errs = seq![ev];
        }
    }
    let names = kind_field_names(k);
    let mut slots: Vec<Option<FieldValue>> = Vec::new();
    let mut j: usize = 0;
    while j < names.len()
        invariant
            j <= names@.len(),
            names@.len() == kind_fields(k).len(),
            slots@ == Seq::new(j as nat, |i: int| None::<FieldValue>),
        decreases names@.len() - j,
    {
        slots.push(None);
        assert(slots@ =~= Seq::new((j + 1) as nat, |i: int| None::<FieldValue>));
        j = j + 1;
    }
    let mut errored = false;
    let ghost goal = spec_scan_args(k, av, enabled, locale@, key_path@);
    assert(goal == scan(k, ScanV { slots: slots@, errored, errs }, av.skip(0), locale@, key_path@)) by {
        assert(av.skip(0) =~= av);
    }
    let mut i: usize = 0;
    while i < args.len()
        invariant
            av == args_view(args@),
            av.len() == args@.len(),
            i <= args@.len(),
            names@.map_values(|s: &str| s@) == kind_fields(k),
            slots@.len() == kind_fields(k).len(),
            errs_view(diag@) == d0 + errs,
            d0 == errs_view(old(diag)@),
            goal == spec_scan_args(k, av, enabled, locale@, key_path@),
            goal == scan(k, ScanV { slots: slots@, errored, errs }, av.skip(i as int), locale@, key_path@),
        decreases args@.len() - i,
    {
        let (name, arg) = args[i];
        let ghost a = av[i as int];
        assert(a == (name@, match arg {
            Some(x) => Some(x@),
            None => None,
        }));
        assert(av.skip(i as int)[0] == a);
        assert(av.skip(i as int).drop_first() =~= av.skip(i + 1));
        let ghost st = ScanV { slots: slots@, errored, errs };
        match find_field(&names, name, Ghost(k)) {
            None => {
                let e = Error::InvalidFormatterArgName {
                    locale: locale.copy(),
                    key_path: key_path.copy(),
                    name: to_owned(name),
                    err: to_owned("unknown argument name"),
                };
                let ghost dd = diag@;
                let ghost ev = e@;
                diag.push(e);
                proof {
                    lemma_errs_push(dd, e);
                    errs = errs.push(ev);
                }
                errored = true;
            },
            Some(f) => {
                assert(kind_fields(k)[f as int] == names@[f as int]@);
                let r = field_value_exec(k, names[f], arg, Ghost(f as int));
                match r {
                    Err(err) => {
                        let owned_arg = match arg {
                            Some(x) => Some(to_owned(x)),
                            None => None,
                        };
                        let e = Error::InvalidFormatterArg {
                            locale: locale.copy(),
                            key_path: key_path.copy(),
                            arg_name: to_owned(name),
                            arg: owned_arg,
                            err,
                        };
                        let ghost dd = diag@;
                        let ghost ev = e@;
                        diag.push(e);
                        proof {
                            lemma_errs_push(dd, e);
                            errs = errs.push(ev);
                        }
                    },
                    Ok(v) => {
                        let was = slots[f].is_some();
                        slots.set(f, Some(v));
                        if was {
                            let owned_arg = match arg {
                                Some(x) => Some(to_owned(x)),
                                None => None,
                            };
                            let e = Error::InvalidFormatterArg {
                                locale: locale.copy(),
                                key_path: key_path.copy(),
                                arg_name: to_owned(name),
                                arg: owned_arg,
                                err: to_owned("duplicate argument"),
                            };
                            let ghost dd = diag@;
                            let ghost ev = e@;
                            diag.push(e);
                            proof {
                                lemma_errs_push(dd, e);
                                errs = errs.push(ev);
                            }
                        }
                    },
                }
            },
        }
        assert(scan_step(k, st, a, locale@, key_path@) == ScanV { slots: slots@, errored, errs });
        i = i + 1;
    }
    assert(av.skip(i as int) =~= Seq::<(Seq<char>, Option<Seq<char>>)>::empty());
    if errored {
        None
    } else {
        Some(slots)
    }
}

pub open spec fn width_of(o: Option<FieldValue>) -> CurrencyWidth {
    match o {
        Some(FieldValue::Width(x)) => x,
        _ => CurrencyWidth::Short,
    }
}

pub open spec fn code_of(o: Option<FieldValue>) -> CurrencyCode {
    match o {
        Some(FieldValue::Code(x)) => x,
        _ => CurrencyCode { b0: 0x55, b1: 0x53, b2: 0x44 },
    }
}

pub open spec fn grouping_of(o: Option<FieldValue>) -> GroupingStrategy {
    match o {
        Some(FieldValue::Grouping(x)) => x,
        _ => GroupingStrategy::Auto,
    }
}

pub open spec fn list_type_of(o: Option<FieldValue>) -> ListType {
    match o {
        Some(FieldValue::ListType(x)) => x,
        _ => ListType::Unit,
    }
}

pub open spec fn list_style_of(o: Option<FieldValue>) -> ListStyle {
    match o {
        Some(FieldValue::ListStyle(x)) => x,
        _ => ListStyle::Wide,
    }
}

pub open spec fn length_of(o: Option<FieldValue>) -> DateTimeLength {
    match o {
        Some(FieldValue::Length(x)) => x,
        _ => DateTimeLength::Medium,
    }
}

pub open spec fn alignment_of(o: Option<FieldValue>) -> DateTimeAlignment {
    match o {
        Some(FieldValue::Alignment(x)) => x,
        _ => DateTimeAlignment::Auto,
    }
}

pub open spec fn precision_of(o: Option<FieldValue>) -> DateTimeTimePrecision {
    match o {
        Some(FieldValue::Precision(x)) => x,
        _ => DateTimeTimePrecision::Second,
    }
}

pub open spec fn year_style_of(o: Option<FieldValue>) -> DateTimeYearStyle {
    match o {
        Some(FieldValue::YearStyle(x)) => x,
        _ => DateTimeYearStyle::Auto,
    }
}

/// The formatter a family builds from the slots of its fields, the
/// defaults standing for the empty slots.
pub open spec fn spec_build(k: FormatterKind, s: Seq<Option<FieldValue>>) -> Formatter {
    match k {
        FormatterKind::Currency => Formatter::Currency(width_of(s[0]), code_of(s[1])),
        FormatterKind::Number => Formatter::Number(grouping_of(s[0])),
        FormatterKind::List => Formatter::List(list_type_of(s[0]), list_style_of(s[1])),
        FormatterKind::DateTime => Formatter::DateTime(length_of(s[0]), alignment_of(s[1]), precision_of(s[2]), year_style_of(s[3])),
        FormatterKind::Date => Formatter::Date(length_of(s[0]), alignment_of(s[1]), year_style_of(s[2])),
        FormatterKind::Time => Formatter::Time(length_of(s[0]), alignment_of(s[1]), precision_of(s[2])),
    }
}

/// The formatter of a family from its arguments, `None` when an argument
/// name is unknown.
pub open spec fn spec_parse_formatter_of(
    k: FormatterKind,
    args: Seq<(Seq<char>, Option<Seq<char>>)>,
    enabled: bool,
    locale: Seq<char>,
    kp: KeyPathV,
) -> (Option<Formatter>, Seq<ErrV>) {
    let st = spec_scan_args(k, args, enabled, locale, kp);
    (if st.errored { None } else { Some(spec_build(k, st.slots)) }, st.errs)
}

fn build_exec(k: FormatterKind, s: &Vec<Option<FieldValue>>) -> (res: Formatter)
    requires
        s@.len() == kind_fields(k).len(),
    ensures
        res == spec_build(k, s@),
{
    let get = |i: usize| -> (r: Option<FieldValue>)
        requires
            i < s@.len(),
        ensures
            r == s@[i as int],
    { s[i] };
    match k {
        FormatterKind::Currency => {
            let w = match get(0) {
                Some(FieldValue::Width(x)) => x,
                _ => CurrencyWidth::Short,
            };
            let c = match get(1) {
                Some(FieldValue::Code(x)) => x,
                _ => CurrencyCode { b0: 0x55, b1: 0x53, b2: 0x44 },
            };
            Formatter::Currency(w, c)
        },
        FormatterKind::Number => Formatter::Number(
            match get(0) {
                Some(FieldValue::Grouping(x)) => x,
                _ => GroupingStrategy::Auto,
            },
        ),
        FormatterKind::List => Formatter::List(
            match get(0) {
                Some(FieldValue::ListType(x)) => x,
                _ => ListType::Unit,
            },
            match get(1) {
                Some(FieldValue::ListStyle(x)) => x,
                _ => ListStyle::Wide,
            },
        ),
        FormatterKind::DateTime => Formatter::DateTime(
            match get(0) {
                Some(FieldValue::Length(x)) => x,
                _ => DateTimeLength::Medium,
            },
            match get(1) {
                Some(FieldValue::Alignment(x)) => x,
                _ => DateTimeAlignment::Auto,
            },
            match get(2) {
                Some(FieldValue::Precision(x)) => x,
                _ => DateTimeTimePrecision::Second,
            },
            match get(3) {
                Some(FieldValue::YearStyle(x)) => x,
                _ => DateTimeYearStyle::Auto,
            },
        ),
        FormatterKind::Date => Formatter::Date(
            match get(0) {
                Some(FieldValue::Length(x)) => x,
                _ => DateTimeLength::Medium,
            },
            match get(1) {
                Some(FieldValue::Alignment(x)) => x,
                _ => DateTimeAlignment::Auto,
            },
            match get(2) {
                Some(FieldValue::YearStyle(x)) => x,
                _ => DateTimeYearStyle::Auto,
            },
        ),
        FormatterKind::Time => Formatter::Time(
            match get(0) {
                Some(FieldValue::Length(x)) => x,
                _ => DateTimeLength::Medium,
            },
            match get(1) {
                Some(FieldValue::Alignment(x)) => x,
                _ => DateTimeAlignment::Auto,
            },
            match get(2) {
                Some(FieldValue::Precision(x)) => x,
                _ => DateTimeTimePrecision::Second,
            },
        ),
    }
}

/// Parses the arguments of a family into its formatter (see
/// `spec_parse_formatter_of`), reporting the errors in `diag`.
pub fn parse_formatter_of(
    k: FormatterKind,
    locale: &Key,
    key_path: &KeyPath,
    args: &[(&str, Option<&str>)],
    enabled: bool,
    diag: &mut Vec<Error>,
) -> (res: Option<Formatter>)
    ensures
        res == spec_parse_formatter_of(k, args_view(args@), enabled, locale@, key_path@).0,
        errs_view(final(diag)@) == errs_view(old(diag)@) + spec_parse_formatter_of(
            k,
            args_view(args@),
            enabled,
            locale@,
            key_path@,
        ).1,
{
    proof {
        lemma_scan_slots_len(k, args_view(args@), enabled, locale@, key_path@);
    }
    match scan_args(k, locale, key_path, args, enabled, diag) {
        None => None,
        Some(slots) => Some(build_exec(k, &slots)),
    }
}

proof fn lemma_scan_len(k: FormatterKind, st: ScanV, args: Seq<(Seq<char>, Option<Seq<char>>)>, locale: Seq<char>, kp: KeyPathV)
    requires
        st.slots.len() == kind_fields(k).len(),
    ensures
        scan(k, st, args, locale, kp).slots.len() == kind_fields(k).len(),
    decreases args.len(),
{
    if args.len() > 0 {
        let st2 = scan_step(k, st, args[0], locale, kp);
        assert(st2.slots.len() == kind_fields(k).len());
        lemma_scan_len(k, st2, args.drop_first(), locale, kp);
    }
}

proof fn lemma_scan_slots_len(k: FormatterKind, args: Seq<(Seq<char>, Option<Seq<char>>)>, enabled: bool, locale: Seq<char>, kp: KeyPathV)
    ensures
        spec_scan_args(k, args, enabled, locale, kp).slots.len() == kind_fields(k).len(),
{
    let e0 = if enabled {
        Seq::<ErrV>::empty()
    } else {
        seq![ErrV::DisabledFormatter { locale, key_path: kp, formatter_err: disabled_message(k) }]
    };
    let slots = Seq::new(kind_fields(k).len(), |i: int| None::<FieldValue>);
    lemma_scan_len(k, ScanV { slots, errored: false, errs: e0 }, args, locale, kp);
}

/// The parser of the `currency` formatter.
pub struct CurrencyFormatterParser;

/// The parser of the `number` formatter.
pub struct NumberFormatterParser;

/// The parser of the `list` formatter.
pub struct ListFormatterParser;

/// The parser of the `datetime` formatter.
pub struct DateTimeFormatterParser;

/// The parser of the `date` formatter.
pub struct DateFormatterParser;

/// The parser of the `time` formatter.
pub struct TimeFormatterParser;

/// A currency formatter: width and currency code.
#[derive(Debug, Clone, Copy, PartialEq, Eq, Structural)]
pub struct CurrencyFormatter(pub CurrencyWidth, pub CurrencyCode);

/// A number formatter: grouping strategy.
#[derive(Debug, Clone, Copy, PartialEq, Eq, Structural)]
pub struct NumberFormatter(pub GroupingStrategy);

/// A list formatter: list type and style.
#[derive(Debug, Clone, Copy, PartialEq, Eq, Structural)]
pub struct ListFormatter(pub ListType, pub ListStyle);

/// A date and time formatter.
#[derive(Debug, Clone, Copy, PartialEq, Eq, Structural)]
pub struct DateTimeFormatter(pub DateTimeLength, pub DateTimeAlignment, pub DateTimeTimePrecision, pub DateTimeYearStyle);

/// A date formatter.
#[derive(Debug, Clone, Copy, PartialEq, Eq, Structural)]
pub struct DateFormatter(pub DateTimeLength, pub DateTimeAlignment, pub DateTimeYearStyle);

/// A time formatter.
#[derive(Debug, Clone, Copy, PartialEq, Eq, Structural)]
pub struct TimeFormatter(pub DateTimeLength, pub DateTimeAlignment, pub DateTimeTimePrecision);

impl NumberFormatterParser {
    /// Parses the arguments of a `number` formatter.
    pub fn parse_with_diagnostics(
        &self,
        locale: &Key,
        key_path: &KeyPath,
        args: &[(&str, Option<&str>)],
        enabled: bool,
        diag: &mut Vec<Error>,
    ) -> (res: Option<NumberFormatter>)
        ensures
            match spec_parse_formatter_of(FormatterKind::Number, args_view(args@), enabled, locale@, key_path@) {
                (r, errs) => errs_view(final(diag)@) == errs_view(old(diag)@) + errs && match r {
                    Some(Formatter::Number(g)) => res == Some(NumberFormatter(g)),
                    _ => res is None,
                },
            },
    {
        match parse_formatter_of(FormatterKind::Number, locale, key_path, args, enabled, diag) {
            Some(Formatter::Number(g)) => Some(NumberFormatter(g)),
            _ => None,
        }
    }
}

impl CurrencyFormatterParser {
    /// Parses the arguments of a `currency` formatter.
    pub fn parse_with_diagnostics(
        &self,
        locale: &Key,
        key_path: &KeyPath,
        args: &[(&str, Option<&str>)],
        enabled: bool,
        diag: &mut Vec<Error>,
    ) -> (res: Option<CurrencyFormatter>)
        ensures
            match spec_parse_formatter_of(FormatterKind::Currency, args_view(args@), enabled, locale@, key_path@) {
                (r, errs) => errs_view(final(diag)@) == errs_view(old(diag)@) + errs && match r {
                    Some(Formatter::Currency(w, c)) => res == Some(CurrencyFormatter(w, c)),
                    _ => res is None,
                },
            },
    {
        match parse_formatter_of(FormatterKind::Currency, locale, key_path, args, enabled, diag) {
            Some(Formatter::Currency(w, c)) => Some(CurrencyFormatter(w, c)),
            _ => None,
        }
    }
}

impl ListFormatterParser {
    /// Parses the arguments of a `list` formatter.
    pub fn parse_with_diagnostics(
        &self,
        locale: &Key,
        key_path: &KeyPath,
        args: &[(&str, Option<&str>)],
        enabled: bool,
        diag: &mut Vec<Error>,
    ) -> (res: Option<ListFormatter>)
        ensures
            match spec_parse_formatter_of(FormatterKind::List, args_view(args@), enabled, locale@, key_path@) {
                (r, errs) => errs_view(final(diag)@) == errs_view(old(diag)@) + errs && match r {
                    Some(Formatter::List(t, st)) => res == Some(ListFormatter(t, st)),
                    _ => res is None,
                },
            },
    {
        match parse_formatter_of(FormatterKind::List, locale, key_path, args, enabled, diag) {
            Some(Formatter::List(t, st)) => Some(ListFormatter(t, st)),
            _ => None,
        }
    }
}

impl DateTimeFormatterParser {
    /// Parses the arguments of a `datetime` formatter.
    pub fn parse_with_diagnostics(
        &self,
        locale: &Key,
        key_path: &KeyPath,
        args: &[(&str, Option<&str>)],
        enabled: bool,
        diag: &mut Vec<Error>,
    ) -> (res: Option<DateTimeFormatter>)
        ensures
            match spec_parse_formatter_of(FormatterKind::DateTime, args_view(args@), enabled, locale@, key_path@) {
                (r, errs) => errs_view(final(diag)@) == errs_view(old(diag)@) + errs && match r {
                    Some(Formatter::DateTime(l, a, p, y)) => res == Some(DateTimeFormatter(l, a, p, y)),
                    _ => res is None,
                },
            },
    {
        match parse_formatter_of(FormatterKind::DateTime, locale, key_path, args, enabled, diag) {
            Some(Formatter::DateTime(l, a, p, y)) => Some(DateTimeFormatter(l, a, p, y)),
            _ => None,
        }
    }
}

impl DateFormatterParser {
    /// Parses the arguments of a `date` formatter.
    pub fn parse_with_diagnostics(
        &self,
        locale: &Key,
        key_path: &KeyPath,
        args: &[(&str, Option<&str>)],
        enabled: bool,
        diag: &mut Vec<Error>,
    ) -> (res: Option<DateFormatter>)
        ensures
            match spec_parse_formatter_of(FormatterKind::Date, args_view(args@), enabled, locale@, key_path@) {
                (r, errs) => errs_view(final(diag)@) == errs_view(old(diag)@) + errs && match r {
                    Some(Formatter::Date(l, a, y)) => res == Some(DateFormatter(l, a, y)),
                    _ => res is None,
                },
            },
    {
        match parse_formatter_of(FormatterKind::Date, locale, key_path, args, enabled, diag) {
            Some(Formatter::Date(l, a, y)) => Some(DateFormatter(l, a, y)),
            _ => None,
        }
    }
}

impl TimeFormatterParser {
    /// Parses the arguments of a `time` formatter.
    pub fn parse_with_diagnostics(
        &self,
        locale: &Key,
        key_path: &KeyPath,
        args: &[(&str, Option<&str>)],
        enabled: bool,
        diag: &mut Vec<Error>,
    ) -> (res: Option<TimeFormatter>)
        ensures
            match spec_parse_formatter_of(FormatterKind::Time, args_view(args@), enabled, locale@, key_path@) {
                (r, errs) => errs_view(final(diag)@) == errs_view(old(diag)@) + errs && match r {
                    Some(Formatter::Time(l, a, p)) => res == Some(TimeFormatter(l, a, p)),
                    _ => res is None,
                },
            },
    {
        match parse_formatter_of(FormatterKind::Time, locale, key_path, args, enabled, diag) {
            Some(Formatter::Time(l, a, p)) => Some(TimeFormatter(l, a, p)),
            _ => None,
        }
    }
}

/// The error of registering a formatter under a name already taken.
#[derive(Debug, Clone, Copy, PartialEq, Eq)]
pub struct DuplicateFormatterErr {
    pub name: &'static str,
}

/// The formatter families known by name.
pub struct Formatters {
    formatters: Vec<(&'static str, FormatterKind)>,
}

/// The name of a family.
pub open spec fn kind_name(k: FormatterKind) -> Seq<char> {
    match k {
        FormatterKind::Currency => "currency"@,
        FormatterKind::Number => "number"@,
        FormatterKind::List => "list"@,
        FormatterKind::DateTime => "datetime"@,
        FormatterKind::Date => "date"@,
        FormatterKind::Time => "time"@,
    }
}

fn kind_name_str(k: FormatterKind) -> (res: &'static str)
    ensures
        res@ == kind_name(k),
{
    match k {
        FormatterKind::Currency => "currency",
        FormatterKind::Number => "number",
        FormatterKind::List => "list",
        FormatterKind::DateTime => "datetime",
        FormatterKind::Date => "date",
        FormatterKind::Time => "time",
    }
}

/// The family registered under `name`.
pub open spec fn registered(r: Seq<(Seq<char>, FormatterKind)>, name: Seq<char>) -> Option<FormatterKind>
    decreases r.len(),
{
    if r.len() == 0 {
        None
    } else if r[0].0 == name {
        Some(r[0].1)
    } else {
        registered(r.drop_first(), name)
    }
}

proof fn lemma_names_distinct()
    ensures
        forall|a: FormatterKind, b: FormatterKind| a != b ==> #[trigger] kind_name(a) != #[trigger] kind_name(b),
{
    reveal_strlit("currency");
    reveal_strlit("number");
    reveal_strlit("list");
    reveal_strlit("datetime");
    reveal_strlit("date");
    reveal_strlit("time");
    assert("currency"@[0] == 'c');
    assert("number"@[0] == 'n');
    assert("list"@[0] == 'l');
    assert("datetime"@[0] == 'd');
    assert("date"@[0] == 'd');
    assert("time"@[0] == 't');
    assert("currency"@.len() == 8);
    assert("number"@.len() == 6);
    assert("list"@.len() == 4);
    assert("datetime"@.len() == 8);
    assert("date"@.len() == 4);
    assert("time"@.len() == 4);
}

impl Formatters {
    pub closed spec fn table(&self) -> Seq<(Seq<char>, FormatterKind)> {
        self.formatters@.map_values(|p: (&'static str, FormatterKind)| (p.0@, p.1))
    }

    /// No family registered.
    pub fn new_empty() -> (res: Formatters)
        ensures
            res.table() == Seq::<(Seq<char>, FormatterKind)>::empty(),
    {
        let r = Formatters { formatters: Vec::new() };
        assert(r.table() =~= Seq::<(Seq<char>, FormatterKind)>::empty());
        r
    }

    fn find(&self, name: &str) -> (res: Option<FormatterKind>)
        ensures
            res == registered(self.table(), name@),
    {
        let ghost t = self.table();
        let mut i: usize = 0;
        assert(t.skip(0) =~= t);
        while i < self.formatters.len()
            invariant
                t == self.table(),
                t.len() == self.formatters@.len(),
                i <= self.formatters@.len(),
                registered(t, name@) == registered(t.skip(i as int), name@),
            decreases self.formatters@.len() - i,
        {
            assert(t.skip(i as int)[0] == (self.formatters@[i as int].0@, self.formatters@[i as int].1));
            assert(t.skip(i as int).drop_first() =~= t.skip(i + 1));
            if str_eq(self.formatters[i].0, name) {
                return Some(self.formatters[i].1);
            }
            i = i + 1;
        }
        None
    }

    /// Registers family `k` under its name; an error when the name is taken.
    pub fn insert_formatter(&mut self, k: FormatterKind) -> (res: Result<(), DuplicateFormatterErr>)
        ensures
            registered(old(self).table(), kind_name(k)) is Some ==> (res matches Err(e) && e.name@ == kind_name(k)
                && final(self).table() == old(self).table()),
            registered(old(self).table(), kind_name(k)) is None ==> res is Ok && final(self).table()
                == old(self).table().push((kind_name(k), k)),
    {
        let name = kind_name_str(k);
        match self.find(name) {
            Some(_) => Err(DuplicateFormatterErr { name }),
            None => {
                let ghost t = self.table();
                self.formatters.push((name, k));
                assert(self.table() =~= t.push((kind_name(k), k)));
                Ok(())
            },
        }
    }

    /// The six families.
    pub fn new() -> (res: Formatters)
        ensures
            forall|k: FormatterKind| #[trigger] registered(res.table(), kind_name(k)) == Some(k),
    {
        proof {
            reveal_strlit("currency");
            reveal_strlit("number");
            reveal_strlit("list");
            reveal_strlit("datetime");
            reveal_strlit("date");
            reveal_strlit("time");
            reveal_with_fuel(registered, 7);
            lemma_names_distinct();
        }
        let mut f = Formatters::new_empty();
        let _ = f.insert_formatter(FormatterKind::Currency);
        assert(f.table() =~= seq![(kind_name(FormatterKind::Currency), FormatterKind::Currency)]);
        assert(registered(f.table(), kind_name(FormatterKind::Number)) is None) by {
            reveal_with_fuel(registered, 7);
        }
        let _ = f.insert_formatter(FormatterKind::Number);
        assert(f.table() =~= seq![
            (kind_name(FormatterKind::Currency), FormatterKind::Currency),
            (kind_name(FormatterKind::Number), FormatterKind::Number)
        ]);
        assert(registered(f.table(), kind_name(FormatterKind::List)) is None) by {
            reveal_with_fuel(registered, 7);
        }
        let _ = f.insert_formatter(FormatterKind::List);
        assert(f.table() =~= seq![
            (kind_name(FormatterKind::Currency), FormatterKind::Currency),
            (kind_name(FormatterKind::Number), FormatterKind::Number),
            (kind_name(FormatterKind::List), FormatterKind::List)
        ]);
        assert(registered(f.table(), kind_name(FormatterKind::DateTime)) is None) by {
            reveal_with_fuel(registered, 7);
        }
        let _ = f.insert_formatter(FormatterKind::DateTime);
        assert(f.table() =~= seq![
            (kind_name(FormatterKind::Currency), FormatterKind::Currency),
            (kind_name(FormatterKind::Number), FormatterKind::Number),
            (kind_name(FormatterKind::List), FormatterKind::List),
            (kind_name(FormatterKind::DateTime), FormatterKind::DateTime)
        ]);
        assert(registered(f.table(), kind_name(FormatterKind::Date)) is None) by {
            reveal_with_fuel(registered, 7);
        }
        let _ = f.insert_formatter(FormatterKind::Date);
        assert(f.table() =~= seq![
            (kind_name(FormatterKind::Currency), FormatterKind::Currency),
            (kind_name(FormatterKind::Number), FormatterKind::Number),
            (kind_name(FormatterKind::List), FormatterKind::List),
            (kind_name(FormatterKind::DateTime), FormatterKind::DateTime),
            (kind_name(FormatterKind::Date), FormatterKind::Date)
        ]);
        assert(registered(f.table(), kind_name(FormatterKind::Time)) is None) by {
            reveal_with_fuel(registered, 7);
        }
        let _ = f.insert_formatter(FormatterKind::Time);
        assert(f.table() =~= seq![
            (kind_name(FormatterKind::Currency), FormatterKind::Currency),
            (kind_name(FormatterKind::Number), FormatterKind::Number),
            (kind_name(FormatterKind::List), FormatterKind::List),
            (kind_name(FormatterKind::DateTime), FormatterKind::DateTime),
            (kind_name(FormatterKind::Date), FormatterKind::Date),
            (kind_name(FormatterKind::Time), FormatterKind::Time)
        ]);
        proof {
            let t = f.table();
            assert(t =~= seq![
                (kind_name(FormatterKind::Currency), FormatterKind::Currency),
                (kind_name(FormatterKind::Number), FormatterKind::Number),
                (kind_name(FormatterKind::List), FormatterKind::List),
                (kind_name(FormatterKind::DateTime), FormatterKind::DateTime),
                (kind_name(FormatterKind::Date), FormatterKind::Date),
                (kind_name(FormatterKind::Time), FormatterKind::Time),
            ]);
            assert forall|k: FormatterKind| #[trigger] registered(f.table(), kind_name(k)) == Some(k) by {
                reveal_with_fuel(registered, 7);
            }
        }
        f
    }

    /// The bound of a variable formatted by `name` with `args`: an unknown
    /// name is reported and gives `Dummy`; a formatter whose arguments name
    /// an unknown argument gives `Dummy`.
    pub fn parse(
        &self,
        locale: &Key,
        key_path: &KeyPath,
        name: &str,
        args: &[(&str, Option<&str>)],
        enabled: bool,
        diag: &mut Vec<Error>,
    ) -> (res: VarBound)
        ensures
            match registered(self.table(), name@) {
                None => res == VarBound::Dummy && errs_view(final(diag)@) == errs_view(old(diag)@).push(
                    ErrV::UnknownFormatter { name: name@, locale: locale@, key_path: key_path@ },
                ),
                Some(k) => {
                    let (r, errs) = spec_parse_formatter_of(k, args_view(args@), enabled, locale@, key_path@);
                    &&& errs_view(final(diag)@) == errs_view(old(diag)@) + errs
                    &&& res == match r {
                        Some(f) => VarBound::Formatted(f),
                        None => VarBound::Dummy,
                    }
                },
            },
    {
        match self.find(name) {
            None => {
                let e = Error::UnknownFormatter { name: to_owned(name), locale: locale.copy(), key_path: key_path.copy() };
                let ghost dd = diag@;
                diag.push(e);
                proof {
                    lemma_errs_push(dd, e);
                }
                VarBound::Dummy
            },
            Some(k) => match parse_formatter_of(k, locale, key_path, args, enabled, diag) {
                Some(f) => VarBound::Formatted(f),
                None => VarBound::Dummy,
            },
        }
    }
}

} // verus!
