//! Package settings: the schema a manifest declares for each setting, the values scripts
//! see, which values a schema accepts, and how saved values meet a (possibly new) schema.
use vstd::prelude::*;
use crate::command::byte_len;
use crate::floatbits::{
    finite64, le64, positive64, spec_finite64, spec_le64, spec_positive64,
};

verus! {

/// A setting value as scripts and preferences hold it.
#[derive(Debug)]
pub enum SettingValue {
    Bool(bool),
    /// A number: the bits of its `f64` value and its JSON spelling.
    Number { value: u64, json: String },
    Text(String),
    /// Any other JSON value (null, array or object), kept as its JSON text.
    Other(String),
}

impl SettingValue {
    /// A copy of the value.
    pub fn duplicate(&self) -> (r: Self)
        ensures
            r == *self,
    {
        match self {
            SettingValue::Bool(b) => SettingValue::Bool(*b),
            SettingValue::Number { value, json } => SettingValue::Number {
                value: *value,
                json: json.clone(),
            },
            SettingValue::Text(t) => SettingValue::Text(t.clone()),
            SettingValue::Other(j) => SettingValue::Other(j.clone()),
        }
    }
}

/// The type of a setting.
#[derive(Debug, Clone, Copy, PartialEq, Eq, Structural)]
pub enum SettingKind {
    Boolean,
    Number,
    String,
    Choice,
}

/// The schema of one setting.
#[derive(Debug)]
pub struct Setting {
    pub kind: SettingKind,
    pub label: String,
    pub description: String,
    pub default: SettingValue,
    /// Bits of the `f64` lower bound.
    pub min: Option<u64>,
    /// Bits of the `f64` upper bound.
    pub max: Option<u64>,
    /// Bits of the `f64` menu increment.
    pub step: Option<u64>,
    pub choices: Vec<String>,
}

/// A Unicode control character (general category Cc).
pub open spec fn unicode_control(c: char) -> bool {
    c <= '\x1f' || ('\x7f' <= c && c <= '\u{9f}')
}

/// Whether the setting accepts the value: a boolean for a boolean; a finite number within the
/// bounds present for a number; a string of at most 128 characters without control
/// characters for a string; one of the listed choices for a choice.
pub open spec fn spec_accepts(s: Setting, v: SettingValue) -> bool {
    match s.kind {
        SettingKind::Boolean => v is Bool,
        SettingKind::Number => match v {
            SettingValue::Number { value, .. } => {
                &&& spec_finite64(value)
                &&& (s.min matches Some(lo) ==> spec_le64(lo, value))
                &&& (s.max matches Some(hi) ==> spec_le64(value, hi))
            },
            _ => false,
        },
        SettingKind::String => match v {
            SettingValue::Text(t) => t@.len() <= 128 && forall|i: int|
                0 <= i < t@.len() ==> !unicode_control(#[trigger] t@[i]),
            _ => false,
        },
        SettingKind::Choice => match v {
            SettingValue::Text(t) => exists|k: int|
                0 <= k < s.choices@.len() && #[trigger] s.choices@[k]@ == t@,
            _ => false,
        },
    }
}

/// A well-formed schema: label of at most 120 bytes, description of at most 512, an accepted
/// default; numbers have finite bounds and a positive finite step; choices list 1 to 32
/// strings of at most 128 bytes.
pub open spec fn spec_setting_valid(s: Setting) -> bool {
    &&& byte_len(s.label@) <= 120
    &&& byte_len(s.description@) <= 512
    &&& spec_accepts(s, s.default)
    &&& (s.kind == SettingKind::Number ==> {
        &&& s.min matches Some(lo) && spec_finite64(lo)
        &&& s.max matches Some(hi) && spec_finite64(hi)
        &&& s.step matches Some(st) && spec_positive64(st)
    })
    &&& (s.kind == SettingKind::Choice ==> {
        &&& 1 <= s.choices@.len() <= 32
        &&& forall|k: int| 0 <= k < s.choices@.len() ==> byte_len(#[trigger] s.choices@[k]@) <= 128
    })
}

fn text_ok(t: &String) -> (r: bool)
    ensures
        r == (t@.len() <= 128 && forall|i: int| 0 <= i < t@.len() ==> !unicode_control(#[trigger] t@[i])),
{
    let cs = crate::text::chars_of(t.as_str());
    if cs.len() > 128 {
        return false;
    }
    let mut i: usize = 0;
    while i < cs.len()
        invariant
            i <= cs@.len(),
            cs@ == t@,
            forall|j: int| 0 <= j < i ==> !unicode_control(#[trigger] cs@[j]),
        decreases cs@.len() - i,
    {
        let c = cs[i];
        if c <= '\x1f' || ('\x7f' <= c && c <= '\u{9f}') {
            assert(unicode_control(t@[i as int]));
            return false;
        }
        i = i + 1;
    }
    true
}

impl Setting {
    /// Whether the setting accepts the value (see `spec_accepts`).
    #[verifier::loop_isolation(false)]
    pub fn accepts(&self, v: &SettingValue) -> (r: bool)
        ensures
            r == spec_accepts(*self, *v),
    {
        match self.kind {
            SettingKind::Boolean => match v {
                SettingValue::Bool(_) => true,
                _ => false,
            },
            SettingKind::Number => match v {
                SettingValue::Number { value, .. } => {
                    let lo_ok = match self.min {
                        Some(lo) => le64(lo, *value),
                        None => true,
                    };
                    let hi_ok = match self.max {
                        Some(hi) => le64(*value, hi),
                        None => true,
                    };
                    finite64(*value) && lo_ok && hi_ok
                },
                _ => false,
            },
            SettingKind::String => match v {
                SettingValue::Text(t) => text_ok(t),
                _ => false,
            },
            SettingKind::Choice => match v {
                SettingValue::Text(t) => {
                    let mut k: usize = 0;
                    while k < self.choices.len()
                        invariant
                            k <= self.choices@.len(),
                            forall|m: int| 0 <= m < k ==> #[trigger] self.choices@[m]@ != t@,
                        decreases self.choices@.len() - k,
                    {
                        if self.choices[k] == *t {
                            assert(self.choices@[k as int]@ == t@);
                            return true;
                        }
                        k = k + 1;
                    }
                    false
                },
                _ => false,
            },
        }
    }

    /// Whether the schema is well formed (see `spec_setting_valid`).
    #[verifier::loop_isolation(false)]
    pub fn valid(&self) -> (r: bool)
        ensures
            r == spec_setting_valid(*self),
    {
        if self.label.as_str().as_bytes().len() > 120 || self.description.as_str().as_bytes().len()
            > 512 || !self.accepts(&self.default) {
            return false;
        }
        match self.kind {
            SettingKind::Number => {
                let lo = match self.min {
                    Some(lo) => finite64(lo),
                    None => false,
                };
                let hi = match self.max {
                    Some(hi) => finite64(hi),
                    None => false,
                };
                let st = match self.step {
                    Some(st) => positive64(st),
                    None => false,
                };
                lo && hi && st
            },
            SettingKind::Choice => {
                let n = self.choices.len();
                if n < 1 || n > 32 {
                    return false;
                }
                let mut k: usize = 0;
                while k < n
                    invariant
                        n == self.choices@.len(),
                        k <= n,
                        forall|m: int| 0 <= m < k ==> byte_len(#[trigger] self.choices@[m]@) <= 128,
                    decreases n - k,
                {
                    if self.choices[k].as_str().as_bytes().len() > 128 {
                        assert(byte_len(self.choices@[k as int]@) > 128);
                        return false;
                    }
                    k = k + 1;
                }
                true
            },
            _ => true,
        }
    }
}

/// The value recorded for the key: the first record wins.
pub open spec fn value_of(values: Seq<(String, SettingValue)>, key: Seq<char>) -> Option<SettingValue>
    decreases values.len(),
{
    if values.len() == 0 {
        None
    } else if values[0].0@ == key {
        Some(values[0].1)
    } else {
        value_of(values.drop_first(), key)
    }
}

/// The value a setting takes from saved values: the saved one when the schema accepts it,
/// otherwise the default.
pub open spec fn merged_value(s: Setting, saved: Option<SettingValue>) -> SettingValue {
    match saved {
        Some(v) => if spec_accepts(s, v) {
            v
        } else {
            s.default
        },
        None => s.default,
    }
}

/// `values` holds, in schema order, each schema key with the value it takes from `saved`.
pub open spec fn settings_merged(
    values: Seq<(String, SettingValue)>,
    schema: Seq<(String, Setting)>,
    saved: Seq<(String, SettingValue)>,
) -> bool {
    &&& values.len() == schema.len()
    &&& forall|i: int| 0 <= i < schema.len() ==> {
        &&& #[trigger] values[i].0 == schema[i].0
        &&& values[i].1 == merged_value(schema[i].1, value_of(saved, schema[i].0@))
    }
}

fn lookup<'a>(values: &'a Vec<(String, SettingValue)>, key: &String) -> (r: Option<&'a SettingValue>)
    ensures
        r matches Some(v) ==> value_of(values@, key@) == Some(*v),
        r is None ==> value_of(values@, key@) is None,
{
    let mut i: usize = 0;
    assert(values@.skip(0) =~= values@);
    while i < values.len()
        invariant
            i <= values@.len(),
            value_of(values@, key@) == value_of(values@.skip(i as int), key@),
        decreases values@.len() - i,
    {
        if values[i].0 == *key {
            return Some(&values[i].1);
        }
        assert(values@.skip(i as int).drop_first() =~= values@.skip(i + 1));
        i = i + 1;
    }
    None
}

/// The values of a schema's settings, in schema order: each saved value the schema accepts is
/// kept, every other setting takes its default, and saved keys the schema lacks are dropped.
pub fn merge_settings(schema: &Vec<(String, Setting)>, saved: &Vec<(String, SettingValue)>) -> (r:
    Vec<(String, SettingValue)>)
    ensures
        settings_merged(r@, schema@, saved@),
{
    let mut r: Vec<(String, SettingValue)> = Vec::new();
    let mut i: usize = 0;
    while i < schema.len()
        invariant
            i <= schema@.len(),
            r@.len() == i,
            forall|j: int| 0 <= j < i ==> {
                &&& #[trigger] r@[j].0 == schema@[j].0
                &&& r@[j].1 == merged_value(schema@[j].1, value_of(saved@, schema@[j].0@))
            },
        decreases schema@.len() - i,
    {
        let key = &schema[i].0;
        let setting = &schema[i].1;
        let v = match lookup(saved, key) {
            Some(v) => if setting.accepts(v) {
                v.duplicate()
            } else {
                setting.default.duplicate()
            },
            None => setting.default.duplicate(),
        };
        r.push((key.clone(), v));
        i = i + 1;
    }
    r
}

} // verus!
