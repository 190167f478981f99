//! Parser for attribute descriptions.
//!
//! Attribute descriptions come from two sources: drive-database entry
//! presets, and command-line overrides. The accepted forms are
//! `ID,FORMAT[:BYTEORDER][,NAME[,(HDD|SSD)]]` and a fixed table of legacy
//! short-hands (like `9,minutes`) that expand to the canonical form.

use vstd::prelude::*;

verus! {

/// What kind of device a description applies to.
#[derive(Debug, Clone, Copy, PartialEq, Eq, Structural)]
pub enum Type {
    HDD,
    SSD,
}

/// SMART attribute description.
#[derive(Debug, PartialEq)]
pub struct Attribute {
    /// id of the described attribute; `None` stands for the wildcard `N`,
    /// which applies to any attribute not described otherwise
    pub id: Option<u8>,
    /// attribute name
    pub name: Option<String>,
    /// value format, like `raw48` or `tempminmax`
    pub format: String,
    /// bytes of attribute data to make the value of (usually something like
    /// `r543210`, where `r`, `v`, `w` represent a reserved byte and the
    /// current and worst values respectively); never empty
    pub byte_order: String,
    /// what kind of device this description is applicable to: HDD, SSD, or
    /// both if unset
    pub drivetype: Option<Type>,
}

/// Mathematical model of an [`Attribute`].
#[verifier::ext_equal]
pub struct AttributeModel {
    pub id: Option<u8>,
    pub name: Option<Seq<char>>,
    pub format: Seq<char>,
    pub byte_order: Seq<char>,
    pub drivetype: Option<Type>,
}

impl View for Attribute {
    type V = AttributeModel;

    open spec fn view(&self) -> AttributeModel {
        AttributeModel {
            id: self.id,
            name: match self.name {
                Some(n) => Some(n@),
                None => None,
            },
            format: self.format@,
            byte_order: self.byte_order@,
            drivetype: self.drivetype,
        }
    }
}

impl DeepView for Attribute {
    type V = AttributeModel;

    open spec fn deep_view(&self) -> AttributeModel {
        self.view()
    }
}

impl Clone for Attribute {
    fn clone(&self) -> (r: Self)
        ensures
            r == *self,
    {
        Attribute {
            id: self.id,
            name: match &self.name {
                Some(n) => Some(n.clone()),
                None => None,
            },
            format: self.format.clone(),
            byte_order: self.byte_order.clone(),
            drivetype: self.drivetype,
        }
    }
}

/// Malformed attribute description.
#[derive(Debug, Clone, PartialEq)]
pub enum Error {
    Parse,
}

/// Decimal digits.
pub open spec fn is_digit(c: char) -> bool {
    48 <= c as u32 <= 57
}

/// Numeric value of a decimal digit.
pub open spec fn digit_val(c: char) -> int {
    c as u32 - 48
}

/// End of the run of decimal digits starting at `i`.
pub open spec fn digits_end(s: Seq<char>, i: int) -> int
    decreases s.len() - i,
{
    if 0 <= i < s.len() && is_digit(s[i]) {
        digits_end(s, i + 1)
    } else {
        i
    }
}

/// End of a format field starting at `i`: the first `,` or `:`, or the end
/// of input.
pub open spec fn field_end(s: Seq<char>, i: int) -> int
    decreases s.len() - i,
{
    if 0 <= i < s.len() && s[i] != ',' && s[i] != ':' {
        field_end(s, i + 1)
    } else {
        i
    }
}

/// End of a byte-order or name field starting at `i`: the first `,`, or the
/// end of input.
pub open spec fn till_comma(s: Seq<char>, i: int) -> int
    decreases s.len() - i,
{
    if 0 <= i < s.len() && s[i] != ',' {
        till_comma(s, i + 1)
    } else {
        i
    }
}

/// Value of the decimal digits in `s[i..j)`.
pub open spec fn digits_value(s: Seq<char>, i: int, j: int) -> int
    decreases j - i,
{
    if i >= j {
        0
    } else {
        digits_value(s, i, j - 1) * 10 + digit_val(s[j - 1])
    }
}

/// The default byte order for a format, used when a description gives none.
pub open spec fn default_byte_order(format: Seq<char>) -> Seq<char> {
    if format == "raw64"@ || format == "hex64"@ {
        "543210wv"@
    } else if format == "raw56"@ || format == "hex56"@ || format == "raw24/raw32"@ || format
        == "msec24hour32"@ {
        "r543210"@
    } else {
        "543210"@
    }
}

/// The canonical descriptor a legacy short-hand stands for; anything not in
/// the legacy table stands for itself.
pub open spec fn alias_expansion(s: Seq<char>) -> Seq<char> {
    if s == "9,halfminutes"@ {
        "9,halfmin2hour,Power_On_Half_Minutes"@
    } else if s == "9,minutes"@ {
        "9,min2hour,Power_On_Minutes"@
    } else if s == "9,seconds"@ {
        "9,sec2hour,Power_On_Seconds"@
    } else if s == "9,temp"@ {
        "9,tempminmax,Temperature_Celsius"@
    } else if s == "192,emergencyretractcyclect"@ {
        "192,raw48,Emerg_Retract_Cycle_Ct"@
    } else if s == "193,loadunload"@ {
        "193,raw24/raw24"@
    } else if s == "194,10xCelsius"@ {
        "194,temp10x,Temperature_Celsius_x10"@
    } else if s == "194,unknown"@ {
        "194,raw48,Unknown_Attribute"@
    } else if s == "197,increasing"@ {
        "197,raw48+,Total_Pending_Sectors"@
    } else if s == "198,offlinescanuncsectorct"@ {
        "198,raw48,Offline_Scan_UNC_SectCt"@
    } else if s == "198,increasing"@ {
        "198,raw48+,Total_Offl_Uncorrectabl"@
    } else if s == "200,writeerrorcount"@ {
        "200,raw48,Write_Error_Count"@
    } else if s == "201,detectedtacount"@ {
        "201,raw48,Detected_TA_Count"@
    } else if s == "220,temp"@ {
        "220,tempminmax,Temperature_Celsius"@
    } else {
        s
    }
}

/// The id field: a decimal number 0 to 255, or the wildcard `N`. Returns the
/// position after the field and the id.
pub open spec fn id_field(s: Seq<char>) -> Option<(int, Option<u8>)> {
    let d = digits_end(s, 0);
    if d > 0 {
        if digits_value(s, 0, d) <= 255 {
            Some((d, Some(digits_value(s, 0, d) as u8)))
        } else {
            None
        }
    } else if s.len() > 0 && s[0] == 'N' {
        Some((1, None))
    } else {
        None
    }
}

/// The canonical descriptor grammar, consumed to the end of input:
/// `ID,FORMAT[:BYTEORDER][,NAME[,(HDD|SSD)]]`. `None` on any violation.
pub open spec fn parse_standard_model(s: Seq<char>) -> Option<AttributeModel> {
    match id_field(s) {
        None => None,
        Some((p0, id)) => if p0 < s.len() && s[p0] == ',' {
            let f_end = field_end(s, p0 + 1);
            if f_end > p0 + 1 {
                let format = s.subrange(p0 + 1, f_end);
                let order_step: Option<(int, Option<Seq<char>>)> = if f_end < s.len() && s[f_end]
                    == ':' {
                    let b_end = till_comma(s, f_end + 1);
                    if b_end > f_end + 1 {
                        Some((b_end, Some(s.subrange(f_end + 1, b_end))))
                    } else {
                        None
                    }
                } else {
                    Some((f_end, None))
                };
                match order_step {
                    None => None,
                    Some((q, byte_order)) => {
                        let name_step: Option<(Option<Seq<char>>, Option<Type>)> = if q == s.len() {
                            Some((None, None))
                        } else if s[q] == ',' {
                            let n_end = till_comma(s, q + 1);
                            if n_end > q + 1 {
                                let name = s.subrange(q + 1, n_end);
                                if n_end == s.len() {
                                    Some((Some(name), None))
                                } else if s.len() == n_end + 4 && s.subrange(n_end + 1, s.len() as int)
                                    == "HDD"@ {
                                    Some((Some(name), Some(Type::HDD)))
                                } else if s.len() == n_end + 4 && s.subrange(n_end + 1, s.len() as int)
                                    == "SSD"@ {
                                    Some((Some(name), Some(Type::SSD)))
                                } else {
                                    None
                                }
                            } else {
                                None
                            }
                        } else {
                            None
                        };
                        match name_step {
                            None => None,
                            Some((name, drivetype)) => Some(
                                AttributeModel {
                                    id,
                                    name,
                                    format,
                                    byte_order: match byte_order {
                                        Some(b) => b,
                                        None => default_byte_order(format),
                                    },
                                    drivetype,
                                },
                            ),
                        }
                    },
                }
            } else {
                None
            }
        } else {
            None
        },
    }
}

/// What a descriptor string denotes: its legacy expansion, if any, parsed by
/// the canonical grammar.
pub open spec fn parse_model(s: Seq<char>) -> Option<AttributeModel> {
    parse_standard_model(alias_expansion(s))
}

/// Whether a descriptor string is one of the legacy short-hand forms.
pub open spec fn is_legacy_alias(s: Seq<char>) -> bool {
    ||| s == "9,halfminutes"@
    ||| s == "9,minutes"@
    ||| s == "9,seconds"@
    ||| s == "9,temp"@
    ||| s == "192,emergencyretractcyclect"@
    ||| s == "193,loadunload"@
    ||| s == "194,10xCelsius"@
    ||| s == "194,unknown"@
    ||| s == "197,increasing"@
    ||| s == "198,offlinescanuncsectorct"@
    ||| s == "198,increasing"@
    ||| s == "200,writeerrorcount"@
    ||| s == "201,detectedtacount"@
    ||| s == "220,temp"@
}

/// Law: every legacy short-hand parses to exactly the attribute its
/// canonical expansion parses to, because no expansion is itself a
/// short-hand.
#[verifier::rlimit(100)]
pub proof fn lemma_alias_round_trip(s: Seq<char>)
    requires
        is_legacy_alias(s),
    ensures
        parse_model(s) == parse_model(alias_expansion(s)),
{
    reveal_strlit("9,halfminutes");
    reveal_strlit("9,minutes");
    reveal_strlit("9,seconds");
    reveal_strlit("9,temp");
    reveal_strlit("192,emergencyretractcyclect");
    reveal_strlit("193,loadunload");
    reveal_strlit("194,10xCelsius");
    reveal_strlit("194,unknown");
    reveal_strlit("197,increasing");
    reveal_strlit("198,offlinescanuncsectorct");
    reveal_strlit("198,increasing");
    reveal_strlit("200,writeerrorcount");
    reveal_strlit("201,detectedtacount");
    reveal_strlit("220,temp");
    reveal_strlit("9,halfmin2hour,Power_On_Half_Minutes");
    reveal_strlit("9,min2hour,Power_On_Minutes");
    reveal_strlit("9,sec2hour,Power_On_Seconds");
    reveal_strlit("9,tempminmax,Temperature_Celsius");
    reveal_strlit("192,raw48,Emerg_Retract_Cycle_Ct");
    reveal_strlit("193,raw24/raw24");
    reveal_strlit("194,temp10x,Temperature_Celsius_x10");
    reveal_strlit("194,raw48,Unknown_Attribute");
    reveal_strlit("197,raw48+,Total_Pending_Sectors");
    reveal_strlit("198,raw48,Offline_Scan_UNC_SectCt");
    reveal_strlit("198,raw48+,Total_Offl_Uncorrectabl");
    reveal_strlit("200,raw48,Write_Error_Count");
    reveal_strlit("201,raw48,Detected_TA_Count");
    reveal_strlit("220,tempminmax,Temperature_Celsius");
    if s == "9,halfminutes"@ {
        assert(alias_expansion("9,halfmin2hour,Power_On_Half_Minutes"@)
            == "9,halfmin2hour,Power_On_Half_Minutes"@);
    } else if s == "9,minutes"@ {
        assert(alias_expansion("9,min2hour,Power_On_Minutes"@) == "9,min2hour,Power_On_Minutes"@);
    } else if s == "9,seconds"@ {
        assert(alias_expansion("9,sec2hour,Power_On_Seconds"@) == "9,sec2hour,Power_On_Seconds"@);
    } else if s == "9,temp"@ {
        assert(alias_expansion("9,tempminmax,Temperature_Celsius"@)
            == "9,tempminmax,Temperature_Celsius"@);
    } else if s == "192,emergencyretractcyclect"@ {
        assert(alias_expansion("192,raw48,Emerg_Retract_Cycle_Ct"@)
            == "192,raw48,Emerg_Retract_Cycle_Ct"@);
    } else if s == "193,loadunload"@ {
        assert(alias_expansion("193,raw24/raw24"@) == "193,raw24/raw24"@);
    } else if s == "194,10xCelsius"@ {
        assert(alias_expansion("194,temp10x,Temperature_Celsius_x10"@)
            == "194,temp10x,Temperature_Celsius_x10"@);
    } else if s == "194,unknown"@ {
        assert("194,raw48,Unknown_Attribute"@ != "192,emergencyretractcyclect"@) by {
            assert("194,raw48,Unknown_Attribute"@[2] == '4');
            assert("192,emergencyretractcyclect"@[2] == '2');
        }
        assert(alias_expansion("194,raw48,Unknown_Attribute"@)
            == "194,raw48,Unknown_Attribute"@);
    } else if s == "197,increasing"@ {
        assert(alias_expansion("197,raw48+,Total_Pending_Sectors"@)
            == "197,raw48+,Total_Pending_Sectors"@);
    } else if s == "198,offlinescanuncsectorct"@ {
        assert(alias_expansion("198,raw48,Offline_Scan_UNC_SectCt"@)
            == "198,raw48,Offline_Scan_UNC_SectCt"@);
    } else if s == "198,increasing"@ {
        assert(alias_expansion("198,raw48+,Total_Offl_Uncorrectabl"@)
            == "198,raw48+,Total_Offl_Uncorrectabl"@);
    } else if s == "200,writeerrorcount"@ {
        assert(alias_expansion("200,raw48,Write_Error_Count"@)
            == "200,raw48,Write_Error_Count"@);
    } else if s == "201,detectedtacount"@ {
        assert(alias_expansion("201,raw48,Detected_TA_Count"@)
            == "201,raw48,Detected_TA_Count"@);
    } else {
        assert(alias_expansion("220,tempminmax,Temperature_Celsius"@)
            == "220,tempminmax,Temperature_Celsius"@);
    }
}

/// Law: a parsed attribute's byte order is never empty: either the
/// descriptor gave one (one or more characters), or the default table
/// filled it in.
pub proof fn lemma_byte_order_nonempty(s: Seq<char>)
    requires
        parse_standard_model(s) is Some,
    ensures
        parse_standard_model(s).unwrap().byte_order.len() > 0,
{
    reveal_strlit("543210wv");
    reveal_strlit("r543210");
    reveal_strlit("543210");
}

/// Law: a descriptor that gives no byte order (its format field ends the
/// input or is followed directly by the name) parses to an attribute whose
/// byte order is exactly the default table's entry for its format.
pub proof fn lemma_default_byte_order_round_trip(s: Seq<char>)
    requires
        parse_standard_model(s) is Some,
        ({
            let d = digits_end(s, 0);
            let p0: int = if d > 0 {
                d
            } else {
                1
            };
            let f_end = field_end(s, p0 + 1);
            !(f_end < s.len() && s[f_end] == ':')
        }),
    ensures
        parse_standard_model(s).unwrap().byte_order == default_byte_order(
            parse_standard_model(s).unwrap().format,
        ),
{
}

proof fn lemma_digits_end(s: Seq<char>, i: int)
    requires
        0 <= i <= s.len(),
    ensures
        i <= digits_end(s, i) <= s.len(),
        forall|j: int| i <= j < digits_end(s, i) ==> is_digit(s[j]),
        digits_end(s, i) < s.len() ==> !is_digit(s[digits_end(s, i)]),
    decreases s.len() - i,
{
    if i < s.len() && is_digit(s[i]) {
        lemma_digits_end(s, i + 1);
    }
}

proof fn lemma_field_end(s: Seq<char>, i: int)
    requires
        0 <= i <= s.len(),
    ensures
        i <= field_end(s, i) <= s.len(),
        field_end(s, i) < s.len() ==> (s[field_end(s, i)] == ',' || s[field_end(s, i)] == ':'),
    decreases s.len() - i,
{
    if i < s.len() && s[i] != ',' && s[i] != ':' {
        lemma_field_end(s, i + 1);
    }
}

proof fn lemma_till_comma(s: Seq<char>, i: int)
    requires
        0 <= i <= s.len(),
    ensures
        i <= till_comma(s, i) <= s.len(),
        till_comma(s, i) < s.len() ==> s[till_comma(s, i)] == ',',
    decreases s.len() - i,
{
    if i < s.len() && s[i] != ',' {
        lemma_till_comma(s, i + 1);
    }
}

proof fn lemma_digits_value_nonneg(s: Seq<char>, i: int, j: int)
    requires
        forall|k: int| i <= k < j ==> is_digit(#[trigger] s[k]),
    ensures
        digits_value(s, i, j) >= 0,
    decreases j - i,
{
    if i < j {
        lemma_digits_value_nonneg(s, i, j - 1);
    }
}

proof fn lemma_digits_value_monotone(s: Seq<char>, i: int, a: int, b: int)
    requires
        i <= a <= b,
        forall|k: int| i <= k < b ==> is_digit(#[trigger] s[k]),
    ensures
        digits_value(s, i, a) <= digits_value(s, i, b),
    decreases b - a,
{
    if a < b {
        lemma_digits_value_monotone(s, i, a, b - 1);
        lemma_digits_value_nonneg(s, i, b - 1);
        assert(digits_value(s, i, b) == digits_value(s, i, b - 1) * 10 + digit_val(s[b - 1]));
        assert(digits_value(s, i, b - 1) * 10 >= digits_value(s, i, b - 1)) by (nonlinear_arith)
            requires
                digits_value(s, i, b - 1) >= 0,
        ;
    }
}

fn digits_end_at(s: &Vec<char>, i: usize) -> (r: usize)
    requires
        i <= s.len(),
    ensures
        r as int == digits_end(s@, i as int),
        i <= r <= s.len(),
{
    let mut p = i;
    while p < s.len() && (s[p] as u32) >= 48 && (s[p] as u32) <= 57
        invariant
            i <= p <= s.len(),
            digits_end(s@, i as int) == digits_end(s@, p as int),
        decreases s.len() - p,
    {
        p = p + 1;
    }
    p
}

fn field_end_at(s: &Vec<char>, i: usize) -> (r: usize)
    requires
        i <= s.len(),
    ensures
        r as int == field_end(s@, i as int),
        i <= r <= s.len(),
{
    let mut p = i;
    while p < s.len() && s[p] != ',' && s[p] != ':'
        invariant
            i <= p <= s.len(),
            field_end(s@, i as int) == field_end(s@, p as int),
        decreases s.len() - p,
    {
        p = p + 1;
    }
    p
}

fn till_comma_at(s: &Vec<char>, i: usize) -> (r: usize)
    requires
        i <= s.len(),
    ensures
        r as int == till_comma(s@, i as int),
        i <= r <= s.len(),
{
    let mut p = i;
    while p < s.len() && s[p] != ','
        invariant
            i <= p <= s.len(),
            till_comma(s@, i as int) == till_comma(s@, p as int),
        decreases s.len() - p,
    {
        p = p + 1;
    }
    p
}

/// Value of the digit run `s[0..end)` as a `u8`, or `None` if it exceeds
/// 255.
fn parse_u8_digits(s: &Vec<char>, end: usize) -> (r: Option<u8>)
    requires
        end <= s.len(),
        forall|j: int| 0 <= j < end ==> is_digit(s@[j]),
    ensures
        match r {
            Some(v) => digits_value(s@, 0, end as int) == v as int,
            None => digits_value(s@, 0, end as int) > 255,
        },
{
    let mut acc: u32 = 0;
    let mut i: usize = 0;
    while i < end
        invariant
            i <= end <= s.len(),
            forall|j: int| 0 <= j < end ==> is_digit(s@[j]),
            acc as int == digits_value(s@, 0, i as int),
            acc <= 255,
        decreases end - i,
    {
        let d = (s[i] as u32) - 48;
        let next = acc * 10 + d;
        assert(next as int == digits_value(s@, 0, i + 1 as int));
        if next > 255 {
            proof {
                lemma_digits_value_monotone(s@, 0, i + 1 as int, end as int);
            }
            return None;
        }
        acc = next;
        i = i + 1;
    }
    Some(acc as u8)
}

/// The characters `s[from..to)` as a new vector.
fn copy_range(s: &Vec<char>, from: usize, to: usize) -> (r: Vec<char>)
    requires
        from <= to <= s.len(),
    ensures
        r@ == s@.subrange(from as int, to as int),
{
    let mut out: Vec<char> = Vec::new();
    let mut i = from;
    while i < to
        invariant
            from <= i <= to <= s.len(),
            out@ == s@.subrange(from as int, i as int),
        decreases to - i,
    {
        out.push(s[i]);
        assert(out@ =~= s@.subrange(from as int, i + 1 as int));
        i = i + 1;
    }
    out
}

/// Parse a descriptor in the canonical grammar only.
fn parse_standard(s: &Vec<char>) -> (r: Option<Attribute>)
    ensures
        r is Some <==> parse_standard_model(s@) is Some,
        r is Some ==> r.unwrap()@ == parse_standard_model(s@).unwrap(),
{
    proof {
        lemma_digits_end(s@, 0);
    }
    let d = digits_end_at(s, 0);
    let (p0, id): (usize, Option<u8>) = if d > 0 {
        match parse_u8_digits(s, d) {
            Some(v) => (d, Some(v)),
            None => {
                return None;
            },
        }
    } else if s.len() > 0 && s[0] == 'N' {
        (1, None)
    } else {
        return None;
    };
    if !(p0 < s.len() && s[p0] == ',') {
        return None;
    }
    proof {
        lemma_field_end(s@, p0 + 1 as int);
    }
    let f_end = field_end_at(s, p0 + 1);
    if !(f_end > p0 + 1) {
        return None;
    }
    let format = copy_range(s, p0 + 1, f_end);
    let (q, byte_order): (usize, Option<Vec<char>>) = if f_end < s.len() && s[f_end] == ':' {
        proof {
            lemma_till_comma(s@, f_end + 1 as int);
        }
        let b_end = till_comma_at(s, f_end + 1);
        if b_end > f_end + 1 {
            (b_end, Some(copy_range(s, f_end + 1, b_end)))
        } else {
            return None;
        }
    } else {
        (f_end, None)
    };
    let (name, drivetype): (Option<Vec<char>>, Option<Type>) = if q == s.len() {
        (None, None)
    } else if s[q] == ',' {
        proof {
            lemma_till_comma(s@, q + 1 as int);
        }
        let n_end = till_comma_at(s, q + 1);
        if !(n_end > q + 1) {
            return None;
        }
        let name = copy_range(s, q + 1, n_end);
        if n_end == s.len() {
            (Some(name), None)
        } else if s.len() - n_end == 4 {
            let tail = copy_range(s, n_end + 1, s.len());
            if crate::text::chars_eq_str(&tail, "HDD") {
                (Some(name), Some(Type::HDD))
            } else if crate::text::chars_eq_str(&tail, "SSD") {
                (Some(name), Some(Type::SSD))
            } else {
                return None;
            }
        } else {
            return None;
        }
    } else {
        return None;
    };
    let byte_order_string: String = match byte_order {
        Some(b) => crate::text::chars_to_string(&b),
        None => {
            if crate::text::chars_eq_str(&format, "raw64") || crate::text::chars_eq_str(
                &format,
                "hex64",
            ) {
                "543210wv".to_owned()
            } else if crate::text::chars_eq_str(&format, "raw56") || crate::text::chars_eq_str(
                &format,
                "hex56",
            ) || crate::text::chars_eq_str(&format, "raw24/raw32") || crate::text::chars_eq_str(
                &format,
                "msec24hour32",
            ) {
                "r543210".to_owned()
            } else {
                "543210".to_owned()
            }
        },
    };
    let a = Attribute {
        id,
        name: match name {
            Some(n) => Some(crate::text::chars_to_string(&n)),
            None => None,
        },
        format: crate::text::chars_to_string(&format),
        byte_order: byte_order_string,
        drivetype,
    };
    assert(a@ =~= parse_standard_model(s@).unwrap());
    Some(a)
}

/// Parse a single attribute description (a `-v` option argument), in either
/// the canonical grammar or one of the legacy short-hand forms.
pub fn parse(s: &str) -> (r: Result<Attribute, Error>)
    ensures
        r is Ok <==> parse_model(s@) is Some,
        r is Ok ==> r.unwrap()@ == parse_model(s@).unwrap(),
{
    let v = crate::text::str_to_chars(s);
    let expanded: Vec<char> = if crate::text::chars_eq_str(&v, "9,halfminutes") {
        crate::text::str_to_chars("9,halfmin2hour,Power_On_Half_Minutes")
    } else if crate::text::chars_eq_str(&v, "9,minutes") {
        crate::text::str_to_chars("9,min2hour,Power_On_Minutes")
    } else if crate::text::chars_eq_str(&v, "9,seconds") {
        crate::text::str_to_chars("9,sec2hour,Power_On_Seconds")
    } else if crate::text::chars_eq_str(&v, "9,temp") {
        crate::text::str_to_chars("9,tempminmax,Temperature_Celsius")
    } else if crate::text::chars_eq_str(&v, "192,emergencyretractcyclect") {
        crate::text::str_to_chars("192,raw48,Emerg_Retract_Cycle_Ct")
    } else if crate::text::chars_eq_str(&v, "193,loadunload") {
        crate::text::str_to_chars("193,raw24/raw24")
    } else if crate::text::chars_eq_str(&v, "194,10xCelsius") {
        crate::text::str_to_chars("194,temp10x,Temperature_Celsius_x10")
    } else if crate::text::chars_eq_str(&v, "194,unknown") {
        crate::text::str_to_chars("194,raw48,Unknown_Attribute")
    } else if crate::text::chars_eq_str(&v, "197,increasing") {
        crate::text::str_to_chars("197,raw48+,Total_Pending_Sectors")
    } else if crate::text::chars_eq_str(&v, "198,offlinescanuncsectorct") {
        crate::text::str_to_chars("198,raw48,Offline_Scan_UNC_SectCt")
    } else if crate::text::chars_eq_str(&v, "198,increasing") {
        crate::text::str_to_chars("198,raw48+,Total_Offl_Uncorrectabl")
    } else if crate::text::chars_eq_str(&v, "200,writeerrorcount") {
        crate::text::str_to_chars("200,raw48,Write_Error_Count")
    } else if crate::text::chars_eq_str(&v, "201,detectedtacount") {
        crate::text::str_to_chars("201,raw48,Detected_TA_Count")
    } else if crate::text::chars_eq_str(&v, "220,temp") {
        crate::text::str_to_chars("220,tempminmax,Temperature_Celsius")
    } else {
        v
    };
    assert(expanded@ == alias_expansion(s@));
    match parse_standard(&expanded) {
        Some(a) => Ok(a),
        None => Err(Error::Parse),
    }
}

} // verus!
