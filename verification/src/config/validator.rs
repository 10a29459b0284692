//! Checks of option values against their documented types, and of a whole
//! config against the known options.

use vstd::prelude::*;
use vstd::string::StringExecFns;
use crate::data::options::{GhosttyOption, OptionView, options_view, str_seq_view};
use crate::keyed::KeyedLists;
use crate::text::{first_index_of, to_chars, find_char, str_eq, join, spec_join,
    push_decimal, spec_decimal, starts_with, has_prefix};

verus! {

/// How serious a validation issue is.
#[derive(Debug, Clone, Copy, PartialEq, Eq)]
pub enum IssueLevel {
    Error,
    Warning,
}

impl IssueLevel {
    pub open spec fn spec_text(self) -> Seq<char> {
        match self {
            IssueLevel::Error => "ERROR"@,
            IssueLevel::Warning => "WARNING"@,
        }
    }

    /// `ERROR` or `WARNING`.
    pub fn to_string(&self) -> (r: String)
        ensures
            r@ == self.spec_text(),
    {
        match self {
            IssueLevel::Error => "ERROR".to_owned(),
            IssueLevel::Warning => "WARNING".to_owned(),
        }
    }
}

/// A validation issue found in the config.
#[derive(Debug, Clone)]
pub struct ValidationIssue {
    pub level: IssueLevel,
    pub option: String,
    pub message: String,
}

pub struct IssueView {
    pub level: IssueLevel,
    pub option: Seq<char>,
    pub message: Seq<char>,
}

impl View for ValidationIssue {
    type V = IssueView;

    open spec fn view(&self) -> IssueView {
        IssueView { level: self.level, option: self.option@, message: self.message@ }
    }
}

pub open spec fn issues_view(s: Seq<ValidationIssue>) -> Seq<IssueView> {
    s.map_values(|i: ValidationIssue| i@)
}

pub open spec fn is_digit(c: char) -> bool {
    '0' <= c && c <= '9'
}

pub open spec fn all_digits(s: Seq<char>) -> bool {
    forall|i: int| 0 <= i < s.len() ==> is_digit(#[trigger] s[i])
}

pub open spec fn is_hex_digit(c: char) -> bool {
    ('0' <= c && c <= '9') || ('a' <= c && c <= 'f') || ('A' <= c && c <= 'F')
}

pub open spec fn all_hex(s: Seq<char>) -> bool {
    forall|i: int| 0 <= i < s.len() ==> is_hex_digit(#[trigger] s[i])
}

/// `c` is the lower-case ASCII letter `lower`, in either case, or equals it.
pub open spec fn same_ignoring_case(c: char, lower: char) -> bool {
    c == lower || ('a' <= lower && lower <= 'z' && (lower as u32) >= 32 && (c as u32) == (lower as u32) - 32)
}

pub open spec fn eq_ignoring_case(s: Seq<char>, lower: Seq<char>) -> bool {
    s.len() == lower.len() && forall|i: int| 0 <= i < s.len() ==> same_ignoring_case(#[trigger] s[i], lower[i])
}

pub open spec fn without_sign(s: Seq<char>) -> Seq<char> {
    if s.len() > 0 && (s[0] == '+' || s[0] == '-') {
        s.drop_first()
    } else {
        s
    }
}

/// Index of the first `e` or `E`, or -1.
pub open spec fn first_exp_index(s: Seq<char>) -> int
    decreases s.len(),
{
    if s.len() == 0 {
        -1
    } else if s[0] == 'e' || s[0] == 'E' {
        0
    } else {
        let r = first_exp_index(s.drop_first());
        if r < 0 {
            -1
        } else {
            r + 1
        }
    }
}

/// `Digit+ | Digit+ '.' Digit* | Digit* '.' Digit+`
pub open spec fn mantissa_ok(m: Seq<char>) -> bool {
    let d = first_index_of(m, '.');
    if d < 0 {
        m.len() > 0 && all_digits(m)
    } else {
        all_digits(m.take(d)) && all_digits(m.skip(d + 1)) && m.len() > 1
    }
}

/// `Sign? Digit+`
pub open spec fn exponent_ok(x: Seq<char>) -> bool {
    let y = without_sign(x);
    y.len() > 0 && all_digits(y)
}

/// `Number ::= Mantissa Exp?`, with `Exp ::= ('e' | 'E') Sign? Digit+`.
pub open spec fn spec_is_number(s: Seq<char>) -> bool {
    let e = first_exp_index(s);
    if e < 0 {
        mantissa_ok(s)
    } else {
        mantissa_ok(s.take(e)) && exponent_ok(s.skip(e + 1))
    }
}

/// The text `f64::from_str` accepts, by the grammar its documentation
/// gives: `Sign? ('inf' | 'infinity' | 'nan' | Number)`, letters in any case.
pub open spec fn spec_is_float_text(s: Seq<char>) -> bool {
    let body = without_sign(s);
    ||| eq_ignoring_case(body, seq!['i', 'n', 'f'])
    ||| eq_ignoring_case(body, seq!['i', 'n', 'f', 'i', 'n', 'i', 't', 'y'])
    ||| eq_ignoring_case(body, seq!['n', 'a', 'n'])
    ||| spec_is_number(body)
}

fn digits_only(v: &Vec<char>, from: usize, to: usize) -> (r: bool)
    requires
        from <= to <= v@.len(),
    ensures
        r == all_digits(v@.subrange(from as int, to as int)),
{
    let mut i = from;
    while i < to
        invariant
            from <= i <= to <= v@.len(),
            forall|j: int| from <= j < i ==> is_digit(v@[j]),
        decreases to - i,
    {
        if !('0' <= v[i] && v[i] <= '9') {
            assert(!is_digit(v@.subrange(from as int, to as int)[i - from]));
            return false;
        }
        i = i + 1;
    }
    assert forall|j: int| 0 <= j < to - from implies is_digit(#[trigger] v@.subrange(from as int, to as int)[j]) by {
        assert(v@.subrange(from as int, to as int)[j] == v@[from + j]);
    }
    true
}

fn matches_word(v: &Vec<char>, from: usize, word: &Vec<char>) -> (r: bool)
    requires
        from <= v@.len(),
    ensures
        r == eq_ignoring_case(v@.skip(from as int), word@),
{
    if v.len() - from != word.len() {
        return false;
    }
    let mut k: usize = from;
    while k < v.len()
        invariant
            from <= k <= v@.len(),
            v@.len() - from == word@.len(),
            forall|j: int| 0 <= j < k - from ==> same_ignoring_case(v@[from + j], word@[j]),
        decreases v@.len() - k,
    {
        let c = v[k];
        let l = word[k - from];
        if !(c == l || ('a' <= l && l <= 'z' && (l as u32) >= 32 && (c as u32) == (l as u32) - 32)) {
            assert(!same_ignoring_case(v@.skip(from as int)[k - from], word@[k - from]));
            return false;
        }
        k = k + 1;
    }
    assert forall|j: int| 0 <= j < word@.len() implies same_ignoring_case(
        #[trigger] v@.skip(from as int)[j],
        word@[j],
    ) by {
        assert(v@.skip(from as int)[j] == v@[from + j]);
    }
    true
}

fn mantissa_check(v: &Vec<char>, a: usize, b: usize) -> (r: bool)
    requires
        a <= b <= v@.len(),
    ensures
        r == mantissa_ok(v@.subrange(a as int, b as int)),
{
    let ghost m = v@.subrange(a as int, b as int);
    let d = find_char(v.as_slice(), a, b, '.');
    if d == b {
        b > a && digits_only(v, a, b)
    } else {
        assert(m.take(d - a) =~= v@.subrange(a as int, d as int));
        assert(m.skip(d - a + 1) =~= v@.subrange(d + 1, b as int));
        digits_only(v, a, d) && digits_only(v, d + 1, b) && b - a > 1
    }
}

/// Whether `value` is text that `f64::from_str` accepts.
pub fn is_float_text(value: &str) -> (r: bool)
    ensures
        r == spec_is_float_text(value@),
{
    let v = to_chars(value);
    let n = v.len();
    let start: usize = if n > 0 && (v[0] == '+' || v[0] == '-') {
        1
    } else {
        0
    };
    let ghost body = without_sign(v@);
    assert(body =~= v@.skip(start as int));
    let inf = vec!['i', 'n', 'f'];
    let infinity = vec!['i', 'n', 'f', 'i', 'n', 'i', 't', 'y'];
    let nan = vec!['n', 'a', 'n'];
    if matches_word(&v, start, &inf) || matches_word(&v, start, &infinity) || matches_word(&v, start, &nan) {
        return true;
    }
    let mut e = start;
    while e < n && v[e] != 'e' && v[e] != 'E'
        invariant
            start <= e <= n == v@.len(),
            forall|j: int| start <= j < e ==> v@[j] != 'e' && v@[j] != 'E',
        decreases n - e,
    {
        e = e + 1;
    }
    proof {
        lemma_first_exp_index(body, if e < n {
            e - start
        } else {
            -1
        });
    }
    if e == n {
        assert(body =~= v@.subrange(start as int, n as int));
        mantissa_check(&v, start, n)
    } else {
        assert(body.take(e - start) =~= v@.subrange(start as int, e as int));
        let ghost x = body.skip(e - start + 1);
        assert(x =~= v@.skip(e + 1));
        let s2: usize = if e + 1 < n && (v[e + 1] == '+' || v[e + 1] == '-') {
            e + 2
        } else {
            e + 1
        };
        assert(without_sign(x) =~= v@.subrange(s2 as int, n as int));
        mantissa_check(&v, start, e) && n > s2 && digits_only(&v, s2, n)
    }
}

proof fn lemma_first_exp_index(s: Seq<char>, i: int)
    requires
        (0 <= i < s.len() && (s[i] == 'e' || s[i] == 'E') && forall|j: int|
            0 <= j < i ==> s[j] != 'e' && s[j] != 'E') || (i == -1 && forall|j: int|
            0 <= j < s.len() ==> s[j] != 'e' && s[j] != 'E'),
    ensures
        first_exp_index(s) == i,
    decreases s.len(),
{
    if s.len() > 0 && i != 0 {
        assert forall|j: int| 0 <= j < s.len() - 1 && (i == -1 || j < i - 1) implies s.drop_first()[j] != 'e'
            && s.drop_first()[j] != 'E' by {
            assert(s.drop_first()[j] == s[j + 1]);
        }
        if i > 0 {
            assert(s.drop_first()[i - 1] == s[i]);
            lemma_first_exp_index(s.drop_first(), i - 1);
        } else {
            lemma_first_exp_index(s.drop_first(), -1);
        }
    }
}

/// All leading `#` removed.
pub open spec fn strip_hashes(s: Seq<char>) -> Seq<char>
    decreases s.len(),
{
    if s.len() > 0 && s[0] == '#' {
        strip_hashes(s.drop_first())
    } else {
        s
    }
}

/// All leading `0x` removed.
pub open spec fn strip_0x(s: Seq<char>) -> Seq<char>
    decreases s.len(),
{
    if s.len() >= 2 && s[0] == '0' && s[1] == 'x' {
        strip_0x(s.skip(2))
    } else {
        s
    }
}

/// Six hexadecimal digits. (`str::len` counts bytes, but six bytes that
/// are all ASCII hex digits are six characters, and any other text fails
/// the digit test either way.)
pub open spec fn is_hex6(s: Seq<char>) -> bool {
    s.len() == 6 && all_hex(s)
}

pub open spec fn issue(level: IssueLevel, option: Seq<char>, message: Seq<char>) -> IssueView {
    IssueView { level, option, message }
}

/// The issues of one value: none for an empty value; for booleans anything
/// but `true`/`false` is an error; for numbers text that is no float is an
/// error; colors warn unless they are six hex digits (after `#` or `0x`)
/// or start with `cell-`; enums reject values outside their list.
pub open spec fn spec_validate_value(o: OptionView, value: Seq<char>) -> Seq<IssueView> {
    if value.len() == 0 {
        seq![]
    } else if o.option_type == "boolean"@ {
        if value == "true"@ || value == "false"@ {
            seq![]
        } else {
            seq![issue(IssueLevel::Error, o.name, "Invalid boolean value '"@ + value
                + "'. Expected 'true' or 'false'."@)]
        }
    } else if o.option_type == "number"@ {
        if spec_is_float_text(value) {
            seq![]
        } else {
            seq![issue(IssueLevel::Error, o.name, "Invalid number value '"@ + value + "'."@)]
        }
    } else if o.option_type == "color"@ {
        if starts_with(value, seq!['#']) || starts_with(value, seq!['0', 'x']) {
            if is_hex6(strip_0x(strip_hashes(value))) {
                seq![]
            } else {
                seq![issue(IssueLevel::Warning, o.name, "Color '"@ + value
                    + "' may be invalid. Expected format: #RRGGBB or RRGGBB."@)]
            }
        } else if is_hex6(strip_hashes(value)) {
            seq![]
        } else if starts_with(value, "cell-"@) {
            seq![]
        } else {
            seq![issue(IssueLevel::Warning, o.name, "Color '"@ + value
                + "' appears to be a named color. Make sure it's a valid X11 color name."@)]
        }
    } else if o.option_type == "enum"@ {
        match o.valid_values {
            Some(vs) => if vs.contains(value) {
                seq![]
            } else {
                seq![issue(IssueLevel::Error, o.name, "Invalid value '"@ + value
                    + "'. Valid values are: "@ + spec_join(vs, ", "@))]
            },
            None => seq![],
        }
    } else {
        seq![]
    }
}

/// One value gives at most one issue, and it names the option; an empty
/// value gives none.
pub proof fn law_value_issues(o: OptionView, value: Seq<char>)
    ensures
        spec_validate_value(o, value).len() <= 1,
        forall|i: int|
            0 <= i < spec_validate_value(o, value).len() ==> (#[trigger] spec_validate_value(o, value)[i]).option
                == o.name,
        value.len() == 0 ==> spec_validate_value(o, value) == Seq::<IssueView>::empty(),
{
}

fn strip_hashes_from(v: &Vec<char>, from: usize) -> (r: usize)
    requires
        from <= v@.len(),
    ensures
        from <= r <= v@.len(),
        v@.skip(r as int) == strip_hashes(v@.skip(from as int)),
{
    let mut i = from;
    while i < v.len() && v[i] == '#'
        invariant
            from <= i <= v@.len(),
            strip_hashes(v@.skip(from as int)) == strip_hashes(v@.skip(i as int)),
        decreases v@.len() - i,
    {
        assert(v@.skip(i as int).drop_first() =~= v@.skip(i + 1));
        i = i + 1;
    }
    i
}

fn strip_0x_from(v: &Vec<char>, from: usize) -> (r: usize)
    requires
        from <= v@.len(),
    ensures
        from <= r <= v@.len(),
        v@.skip(r as int) == strip_0x(v@.skip(from as int)),
{
    let mut i = from;
    while i < v.len() && v.len() - i >= 2 && v[i] == '0' && v[i + 1] == 'x'
        invariant
            from <= i <= v@.len(),
            strip_0x(v@.skip(from as int)) == strip_0x(v@.skip(i as int)),
        decreases v@.len() - i,
    {
        assert(v@.skip(i as int).skip(2) =~= v@.skip(i + 2));
        i = i + 2;
    }
    i
}

fn hex6_from(v: &Vec<char>, from: usize) -> (r: bool)
    requires
        from <= v@.len(),
    ensures
        r == is_hex6(v@.skip(from as int)),
{
    if v.len() - from != 6 {
        return false;
    }
    let mut i = from;
    while i < v.len()
        invariant
            from <= i <= v@.len(),
            forall|j: int| from <= j < i ==> is_hex_digit(v@[j]),
        decreases v@.len() - i,
    {
        let c = v[i];
        if !(('0' <= c && c <= '9') || ('a' <= c && c <= 'f') || ('A' <= c && c <= 'F')) {
            assert(!is_hex_digit(v@.skip(from as int)[i - from]));
            return false;
        }
        i = i + 1;
    }
    assert forall|j: int| 0 <= j < v@.len() - from implies is_hex_digit(#[trigger] v@.skip(from as int)[j]) by {
        assert(v@.skip(from as int)[j] == v@[from + j]);
    }
    true
}

fn message3(a: &str, value: &str, b: &str) -> (r: String)
    ensures
        r@ == a@ + value@ + b@,
{
    let mut s = String::new();
    s.append(a);
    s.append(value);
    s.append(b);
    assert(s@ =~= a@ + value@ + b@);
    s
}

fn contains_string(vs: &Vec<String>, value: &str) -> (r: bool)
    ensures
        r == str_seq_view(vs@).contains(value@),
{
    let n = vs.len();
    for i in 0..n
        invariant
            n == vs@.len(),
            forall|j: int| 0 <= j < i ==> vs@[j]@ != value@,
    {
        if str_eq(vs[i].as_str(), value) {
            assert(str_seq_view(vs@)[i as int] == value@);
            return true;
        }
    }
    assert forall|j: int| 0 <= j < str_seq_view(vs@).len() implies str_seq_view(vs@)[j] != value@ by {
        assert(str_seq_view(vs@)[j] == vs@[j]@);
    }
    false
}

/// Validate a single option value against its type and constraints.
pub fn validate_value(option: &GhosttyOption, value: &str) -> (r: Vec<ValidationIssue>)
    ensures
        issues_view(r@) == spec_validate_value(option@, value@),
{
    let mut issues: Vec<ValidationIssue> = Vec::new();
    if value.is_empty() {
        assert(issues_view(issues@) =~= spec_validate_value(option@, value@));
        return issues;
    }
    let t = option.option_type.as_str();
    let ghost o = option@;
    if str_eq(t, "boolean") {
        if !(str_eq(value, "true") || str_eq(value, "false")) {
            issues.push(ValidationIssue {
                level: IssueLevel::Error,
                option: option.name.clone(),
                message: message3("Invalid boolean value '", value, "'. Expected 'true' or 'false'."),
            });
        }
    } else if str_eq(t, "number") {
        if !is_float_text(value) {
            issues.push(ValidationIssue {
                level: IssueLevel::Error,
                option: option.name.clone(),
                message: message3("Invalid number value '", value, "'."),
            });
        }
    } else if str_eq(t, "color") {
        let v = to_chars(value);
        assert(v@.skip(0) =~= v@);
        let after_hashes = strip_hashes_from(&v, 0);
        if has_prefix(v.as_slice(), "#") || has_prefix(v.as_slice(), "0x") {
            proof {
                reveal_strlit("#");
                reveal_strlit("0x");
                assert("#"@ =~= seq!['#']);
                assert("0x"@ =~= seq!['0', 'x']);
            }
            let after_0x = strip_0x_from(&v, after_hashes);
            if !hex6_from(&v, after_0x) {
                issues.push(ValidationIssue {
                    level: IssueLevel::Warning,
                    option: option.name.clone(),
                    message: message3(
                        "Color '",
                        value,
                        "' may be invalid. Expected format: #RRGGBB or RRGGBB.",
                    ),
                });
            }
        } else {
            proof {
                reveal_strlit("#");
                reveal_strlit("0x");
                assert("#"@ =~= seq!['#']);
                assert("0x"@ =~= seq!['0', 'x']);
            }
            if hex6_from(&v, after_hashes) {
            } else if has_prefix(v.as_slice(), "cell-") {
            } else {
                issues.push(ValidationIssue {
                    level: IssueLevel::Warning,
                    option: option.name.clone(),
                    message: message3(
                        "Color '",
                        value,
                        "' appears to be a named color. Make sure it's a valid X11 color name.",
                    ),
                });
            }
        }
    } else if str_eq(t, "enum") {
        match &option.valid_values {
            Some(valid) => {
                if !contains_string(valid, value) {
                    let mut m = message3("Invalid value '", value, "'. Valid values are: ");
                    let joined = join(valid, ", ");
                    m.append(joined.as_str());
                    issues.push(ValidationIssue {
                        level: IssueLevel::Error,
                        option: option.name.clone(),
                        message: m,
                    });
                }
            },
            None => {},
        }
    }
    assert(issues_view(issues@) =~= spec_validate_value(option@, value@));
    issues
}

/// Index of the first option named `name`, or -1.
pub open spec fn find_option(opts: Seq<OptionView>, name: Seq<char>) -> int
    decreases opts.len(),
{
    if opts.len() == 0 {
        -1
    } else if opts[0].name == name {
        0
    } else {
        let r = find_option(opts.drop_first(), name);
        if r < 0 {
            -1
        } else {
            r + 1
        }
    }
}

proof fn lemma_find_option(opts: Seq<OptionView>, name: Seq<char>, i: int)
    requires
        0 <= i <= opts.len(),
        forall|j: int| 0 <= j < i ==> (#[trigger] opts[j]).name != name,
        i < opts.len() ==> opts[i].name == name,
    ensures
        find_option(opts, name) == (if i < opts.len() {
            i
        } else {
            -1
        }),
    decreases opts.len(),
{
    if opts.len() > 0 && i > 0 {
        assert forall|j: int| 0 <= j < i - 1 implies (#[trigger] opts.drop_first()[j]).name != name by {
            assert(opts.drop_first()[j] == opts[j + 1]);
        }
        if i < opts.len() {
            assert(opts.drop_first()[i - 1] == opts[i]);
        }
        lemma_find_option(opts.drop_first(), name, i - 1);
    }
}

/// Position of the first option named `name`, or the number of options.
pub fn option_index(options: &[GhosttyOption], name: &str) -> (r: usize)
    ensures
        r <= options@.len(),
        find_option(options_view(options@), name@) == (if r < options@.len() {
            r as int
        } else {
            -1
        }),
{
    let ghost ov = options_view(options@);
    let m = options.len();
    let mut j: usize = 0;
    while j < m && !str_eq(options[j].name.as_str(), name)
        invariant
            j <= m == options@.len() == ov.len(),
            ov == options_view(options@),
            forall|t: int| 0 <= t < j ==> (#[trigger] ov[t]).name != name@,
        decreases m - j,
    {
        assert(ov[j as int] == options@[j as int]@);
        j = j + 1;
    }
    proof {
        if j < m {
            assert(ov[j as int] == options@[j as int]@);
        }
        lemma_find_option(ov, name@, j as int);
    }
    j
}

/// The issues of each value in turn.
pub open spec fn values_issues(o: OptionView, values: Seq<Seq<char>>) -> Seq<IssueView>
    decreases values.len(),
{
    if values.len() == 0 {
        seq![]
    } else {
        values_issues(o, values.drop_last()) + spec_validate_value(o, values.last())
    }
}

/// The issues of one key and its values: an unknown key warns; a key set
/// more than once that is not repeatable warns; then each value's issues.
pub open spec fn entry_issues(key: Seq<char>, values: Seq<Seq<char>>, opts: Seq<OptionView>) -> Seq<
    IssueView,
> {
    let i = find_option(opts, key);
    if i < 0 {
        seq![issue(IssueLevel::Warning, key, "Unknown option '"@ + key + "'. It may be misspelled."@)]
    } else {
        let o = opts[i];
        (if values.len() > 1 && !o.repeatable {
            seq![issue(IssueLevel::Warning, key, "Option '"@ + key + "' is set "@ + spec_decimal(
                values.len(),
            ) + " times but is not repeatable. Only the last value will take effect."@)]
        } else {
            seq![]
        }) + values_issues(o, values)
    }
}

pub open spec fn entries_view(s: Seq<(String, Vec<String>)>) -> Seq<(Seq<char>, Seq<Seq<char>>)> {
    s.map_values(|e: (String, Vec<String>)| (e.0@, str_seq_view(e.1@)))
}

/// The issues of every key, in the map's order.
pub open spec fn spec_validate_config(
    entries: Seq<(Seq<char>, Seq<Seq<char>>)>,
    opts: Seq<OptionView>,
) -> Seq<IssueView>
    decreases entries.len(),
{
    if entries.len() == 0 {
        seq![]
    } else {
        spec_validate_config(entries.drop_last(), opts) + entry_issues(
            entries.last().0,
            entries.last().1,
            opts,
        )
    }
}

/// Validate the entire config against known options.
pub fn validate_config(config_map: &KeyedLists<String>, known_options: &[GhosttyOption]) -> (r: Vec<
    ValidationIssue,
>)
    ensures
        issues_view(r@) == spec_validate_config(
            entries_view(config_map.entries@),
            options_view(known_options@),
        ),
{
    let ghost ev = entries_view(config_map.entries@);
    let ghost ov = options_view(known_options@);
    let mut issues: Vec<ValidationIssue> = Vec::new();
    let n = config_map.entries.len();
    for i in 0..n
        invariant
            n == config_map.entries@.len() == ev.len(),
            ev == entries_view(config_map.entries@),
            ov == options_view(known_options@),
            issues_view(issues@) == spec_validate_config(ev.take(i as int), ov),
    {
        assert(ev.take(i + 1).drop_last() =~= ev.take(i as int));
        assert(ev.take(i + 1).last() == ev[i as int]);
        let key = &config_map.entries[i].0;
        let values = &config_map.entries[i].1;
        let ghost k = key@;
        let ghost vals = str_seq_view(values@);
        assert(ev[i as int] == (k, vals));
        let m = known_options.len();
        let mut j: usize = 0;
        while j < m && !str_eq(known_options[j].name.as_str(), key.as_str())
            invariant
                j <= m == known_options@.len() == ov.len(),
                ov == options_view(known_options@),
                forall|t: int| 0 <= t < j ==> (#[trigger] ov[t]).name != k,
                k == key@,
            decreases m - j,
        {
            assert(ov[j as int] == known_options@[j as int]@);
            j = j + 1;
        }
        proof {
            lemma_find_option(ov, k, j as int);
        }
        let ghost before = issues_view(issues@);
        if j == m {
            let issue_ = ValidationIssue {
                level: IssueLevel::Warning,
                option: key.clone(),
                message: message3("Unknown option '", key.as_str(), "'. It may be misspelled."),
            };
            issues.push(issue_);
            assert(issues_view(issues@) =~= before + entry_issues(k, vals, ov));
        } else {
            let opt = &known_options[j];
            assert(ov[j as int] == opt@);
            if values.len() > 1 && !opt.repeatable {
                let mut msg = message3("Option '", key.as_str(), "' is set ");
                push_decimal(&mut msg, values.len());
                msg.append(" times but is not repeatable. Only the last value will take effect.");
                let issue_ = ValidationIssue { level: IssueLevel::Warning, option: key.clone(), message: msg };
                issues.push(issue_);
            }
            let ghost head = issues_view(issues@);
            assert(head =~= before + (if vals.len() > 1 && !opt@.repeatable {
                seq![issue(IssueLevel::Warning, k, "Option '"@ + k + "' is set "@ + spec_decimal(vals.len())
                    + " times but is not repeatable. Only the last value will take effect."@)]
            } else {
                seq![]
            }));
            let vn = values.len();
            for t in 0..vn
                invariant
                    vn == values@.len() == vals.len(),
                    vals == str_seq_view(values@),
                    issues_view(issues@) == head + values_issues(opt@, vals.take(t as int)),
            {
                assert(vals.take(t + 1).drop_last() =~= vals.take(t as int));
                assert(vals.take(t + 1).last() == values@[t as int]@);
                let mut more = validate_value(opt, values[t].as_str());
                let ghost mid = issues@;
                let ghost added = more@;
                issues.append(&mut more);
                assert(issues@ =~= mid + added);
                assert(issues_view(issues@) =~= issues_view(mid) + issues_view(added));
                assert(issues_view(issues@) =~= head + values_issues(opt@, vals.take(t + 1)));
            }
            assert(vals.take(vn as int) =~= vals);
            assert(issues_view(issues@) =~= before + entry_issues(k, vals, ov));
        }
    }
    assert(ev.take(n as int) =~= ev);
    issues
}

/// Six ASCII hex digits, in either case, with or without a leading `#`,
/// are a valid color: no issue at all.
pub proof fn law_hex_colors_accepted(o: OptionView, value: Seq<char>)
    requires
        o.option_type == "color"@,
        value.len() == 7 && value[0] == '#' || value.len() == 6,
        forall|j: int|
            value.len() - 6 <= j < value.len() ==> ('0' <= #[trigger] value[j] && value[j] <= '9') || ('a'
                <= value[j] && value[j] <= 'f') || ('A' <= value[j] && value[j] <= 'F'),
    ensures
        spec_validate_value(o, value) == Seq::<IssueView>::empty(),
{
    reveal_strlit("color");
    reveal_strlit("boolean");
    reveal_strlit("number");
    let h = value.skip(value.len() - 6);
    assert forall|j: int| 0 <= j < h.len() implies is_hex_digit(#[trigger] h[j]) by {
        assert(h[j] == value[value.len() - 6 + j]);
    }
    assert(h[0] != '#');
    assert(h[1] != 'x');
    assert(strip_0x(h) == h);
    assert(strip_hashes(h) == h);
    assert(is_hex6(h));
    assert("color"@.len() == 5 && "boolean"@.len() == 7 && "number"@.len() == 6);
    assert(value.len() != 0);
    if value.len() == 7 {
        assert(value.drop_first() =~= h);
        assert(starts_with(value, seq!['#'])) by {
            assert(value.take(1) =~= seq!['#']);
        }
        assert(strip_hashes(value) == h);
        assert(is_hex6(strip_0x(strip_hashes(value))));
    } else {
        assert(value =~= h);
        assert(!starts_with(value, seq!['#'])) by {
            assert(value.take(1)[0] == value[0]);
        }
        assert(!starts_with(value, seq!['0', 'x'])) by {
            assert(value.take(2)[1] == value[1]);
        }
    }
}

/// A boolean accepts exactly `true` and `false` and refuses any other
/// non-empty value with an error; an enum with a list accepts exactly the
/// listed values and refuses others with an error; a `string` accepts
/// anything.
pub proof fn law_value_checks(o: OptionView, value: Seq<char>)
    requires
        value.len() > 0,
    ensures
        o.option_type == "boolean"@ ==> (spec_validate_value(o, value).len() == 0 <==> (value == "true"@ || value
            == "false"@)),
        o.option_type == "boolean"@ && spec_validate_value(o, value).len() > 0 ==> spec_validate_value(o, value)[0].level
            == IssueLevel::Error,
        o.option_type == "enum"@ && o.valid_values is Some ==> (spec_validate_value(o, value).len() == 0 <==> o.valid_values->0.contains(
            value,
        )),
        o.option_type == "enum"@ && spec_validate_value(o, value).len() > 0 ==> spec_validate_value(o, value)[0].level
            == IssueLevel::Error,
        o.option_type == "string"@ ==> spec_validate_value(o, value).len() == 0,
{
    reveal_strlit("color");
    reveal_strlit("boolean");
    reveal_strlit("number");
    reveal_strlit("enum");
    reveal_strlit("string");
    assert("color"@.len() == 5 && "boolean"@.len() == 7 && "number"@.len() == 6 && "enum"@.len() == 4
        && "string"@.len() == 6);
    assert("string"@[0] != "number"@[0]);
}

} // verus!
