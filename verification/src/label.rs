//! Turning a raw signal value into the text shown for it.

use vstd::prelude::*;
use vstd::string::StringExecFns;
use crate::schema::SignalValueNames;

verus! {

/// The character of a decimal digit.
pub open spec fn digit_char(d: int) -> char {
    if d == 0 {
        '0'
    } else if d == 1 {
        '1'
    } else if d == 2 {
        '2'
    } else if d == 3 {
        '3'
    } else if d == 4 {
        '4'
    } else if d == 5 {
        '5'
    } else if d == 6 {
        '6'
    } else if d == 7 {
        '7'
    } else if d == 8 {
        '8'
    } else {
        '9'
    }
}

/// The decimal representation of `n`, without sign or leading zeros.
pub open spec fn decimal(n: nat) -> Seq<char>
    decreases n,
{
    if n < 10 {
        seq![digit_char(n as int)]
    } else {
        decimal(n / 10).push(digit_char((n % 10) as int))
    }
}

/// A declared label value stands for the raw value with the same 32 bits:
/// both are read as unsigned numbers, so a negative declared value stands for
/// a raw value of 2^31 or more.
pub open spec fn label_matches(declared: i32, raw: u32) -> bool {
    if declared >= 0 {
        declared as int == raw as int
    } else {
        declared + 0x1_0000_0000 == raw as int
    }
}

/// The label of the first entry declared for `raw`, if there is one.
pub open spec fn first_label(names: Seq<SignalValueNames>, raw: u32) -> Option<Seq<char>>
    decreases names.len(),
{
    if names.len() == 0 {
        None
    } else if label_matches(names[0].value, raw) {
        Some(names[0].name@)
    } else {
        first_label(names.skip(1), raw)
    }
}

/// No raw value has two entries.
pub open spec fn distinct_values(names: Seq<SignalValueNames>) -> bool {
    forall|i: int, j: int|
        0 <= i < j < names.len() ==> (#[trigger] names[i]).value != (#[trigger] names[j]).value
}

/// The text shown for `raw`: its label, or else its decimal representation.
pub open spec fn display_value(raw: u32, names: Seq<SignalValueNames>) -> Seq<char> {
    match first_label(names, raw) {
        Some(label) => label,
        None => decimal(raw as nat),
    }
}

fn digit_str(d: u32) -> (text: &'static str)
    requires
        d < 10,
    ensures
        text@ == seq![digit_char(d as int)],
{
    proof {
        reveal_strlit("0");
        reveal_strlit("1");
        reveal_strlit("2");
        reveal_strlit("3");
        reveal_strlit("4");
        reveal_strlit("5");
        reveal_strlit("6");
        reveal_strlit("7");
        reveal_strlit("8");
        reveal_strlit("9");
    }
    let text: &'static str = if d == 0 {
        "0"
    } else if d == 1 {
        "1"
    } else if d == 2 {
        "2"
    } else if d == 3 {
        "3"
    } else if d == 4 {
        "4"
    } else if d == 5 {
        "5"
    } else if d == 6 {
        "6"
    } else if d == 7 {
        "7"
    } else if d == 8 {
        "8"
    } else {
        "9"
    };
    assert(text@ =~= seq![digit_char(d as int)]);
    text
}

/// Writes `n` in decimal.
pub fn decimal_string(n: u32) -> (text: String)
    ensures
        text@ == decimal(n as nat),
    decreases n,
{
    if n < 10 {
        String::from_str(digit_str(n))
    } else {
        let mut text: String = decimal_string(n / 10);
        let last: &'static str = digit_str(n % 10);
        text.append(last);
        assert(text@ =~= decimal((n / 10) as nat).push(digit_char((n % 10) as int)));
        text
    }
}

/// Whether a declared label value stands for `raw`.
pub fn matches_raw(declared: i32, raw: u32) -> (same: bool)
    ensures
        same == label_matches(declared, raw),
{
    let wide: i64 = if declared >= 0 {
        declared as i64
    } else {
        declared as i64 + 0x1_0000_0000i64
    };
    wide == raw as i64
}

/// The text shown for a raw value: the label of the first entry declared for
/// it, or its decimal representation where no entry is.
pub fn get_named_signal(sig_val: u32, sig_val_names: &Vec<SignalValueNames>) -> (text: String)
    ensures
        text@ == display_value(sig_val, sig_val_names@),
{
    let mut i: usize = 0;
    assert(sig_val_names@.skip(0) =~= sig_val_names@);
    while i < sig_val_names.len()
        invariant
            i <= sig_val_names@.len(),
            first_label(sig_val_names@, sig_val) == first_label(
                sig_val_names@.skip(i as int),
                sig_val,
            ),
        decreases sig_val_names@.len() - i,
    {
        proof {
            let rest = sig_val_names@.skip(i as int);
            assert(rest[0] == sig_val_names@[i as int]);
            assert(rest.skip(1) =~= sig_val_names@.skip(i + 1));
        }
        if matches_raw(sig_val_names[i].value, sig_val) {
            return sig_val_names[i].name.clone();
        }
        i += 1;
    }
    decimal_string(sig_val)
}

/// An entry declared for `raw` with none before it gives its label.
pub proof fn lemma_label_found(names: Seq<SignalValueNames>, raw: u32, at: int)
    requires
        0 <= at < names.len(),
        label_matches(names[at].value, raw),
        forall|j: int| 0 <= j < at ==> !label_matches(#[trigger] names[j].value, raw),
    ensures
        display_value(raw, names) == names[at].name@,
    decreases names.len(),
{
    if at > 0 {
        let rest = names.skip(1);
        assert(!label_matches(names[0].value, raw));
        assert forall|j: int| 0 <= j < at - 1 implies !label_matches(
            #[trigger] rest[j].value,
            raw,
        ) by {
            assert(rest[j] == names[j + 1]);
        }
        assert(rest[at - 1] == names[at]);
        lemma_label_found(rest, raw, at - 1);
    }
}

/// Where no entry is declared for `raw`, and so for an empty table, the raw
/// value is shown in decimal.
pub proof fn lemma_label_missing(names: Seq<SignalValueNames>, raw: u32)
    requires
        forall|j: int| 0 <= j < names.len() ==> !label_matches(#[trigger] names[j].value, raw),
    ensures
        display_value(raw, names) == decimal(raw as nat),
    decreases names.len(),
{
    if names.len() > 0 {
        let rest = names.skip(1);
        assert(!label_matches(names[0].value, raw));
        assert forall|j: int| 0 <= j < rest.len() implies !label_matches(
            #[trigger] rest[j].value,
            raw,
        ) by {
            assert(rest[j] == names[j + 1]);
        }
        lemma_label_missing(rest, raw);
    }
}

/// In a table without duplicates, any entry declared for `raw` gives its
/// label.
pub proof fn lemma_label_of_entry(names: Seq<SignalValueNames>, raw: u32, at: int)
    requires
        distinct_values(names),
        0 <= at < names.len(),
        label_matches(names[at].value, raw),
    ensures
        display_value(raw, names) == names[at].name@,
{
    assert forall|j: int| 0 <= j < at implies !label_matches(#[trigger] names[j].value, raw) by {
        assert(names[j].value != names[at].value);
    }
    lemma_label_found(names, raw, at);
}

} // verus!
