//! One record of a comma-delimited batch file.
//!
//! A record line names a key and any number of further values, separated by
//! commas; whitespace anywhere on the line is dropped. The first field that
//! closes (at a comma, or at the end of the line) becomes the key — so long
//! as it is non-empty — and every later field joins the values.

use vstd::prelude::*;

use crate::chars::is_space_char;
use vstd::string::StrSliceExecFns;

verus! {

/// A parsed record: the key and the values that follow it.
#[derive(Debug)]
pub struct Batch {
    pub key: String,
    pub values: Vec<String>,
}

impl View for Batch {
    type V = (Seq<char>, Seq<Seq<char>>);

    open spec fn view(&self) -> (Seq<char>, Seq<Seq<char>>) {
        (self.key@, self.values.deep_view())
    }
}

/// The field-splitting state after reading `s` up to (not including)
/// position `i`: the key seen so far, the completed values, and the text of
/// the still-open field. A comma closes the open field: into the key while
/// the key is empty, into the values otherwise. Whitespace vanishes; every
/// other character extends the open field.
pub open spec fn scan_record(
    s: Seq<char>,
    i: int,
    key: Seq<char>,
    values: Seq<Seq<char>>,
    field: Seq<char>,
) -> (Seq<char>, Seq<Seq<char>>, Seq<char>)
    decreases s.len() - i + 1,
{
    if i < 0 || i >= s.len() {
        (key, values, field)
    } else {
        let c = s[i];
        if c == ',' {
            if key.len() == 0 {
                scan_record(s, i + 1, field, values, Seq::<char>::empty())
            } else {
                scan_record(s, i + 1, key, values.push(field), Seq::<char>::empty())
            }
        } else if is_space_char(c) {
            scan_record(s, i + 1, key, values, field)
        } else {
            scan_record(s, i + 1, key, values, field.push(c))
        }
    }
}

/// What parsing a record line yields: the key and the values, or nothing
/// when the line holds no key. A non-empty field still open at the end of
/// the line closes as if a comma followed it.
pub open spec fn spec_parse_record(s: Seq<char>) -> Option<(Seq<char>, Seq<Seq<char>>)> {
    let (key, values, field) = scan_record(
        s,
        0,
        Seq::<char>::empty(),
        Seq::<Seq<char>>::empty(),
        Seq::<char>::empty(),
    );
    let (key2, values2) = if field.len() > 0 {
        if key.len() == 0 {
            (field, values)
        } else {
            (key, values.push(field))
        }
    } else {
        (key, values)
    };
    if key2.len() == 0 {
        None
    } else {
        Some((key2, values2))
    }
}

/// The mathematical reading of a parse result.
pub open spec fn record_view(r: Option<Batch>) -> Option<(Seq<char>, Seq<Seq<char>>)> {
    match r {
        Some(b) => Some(b@),
        None => None,
    }
}

impl Batch {
    /// Splits one record line into its key and values: returns exactly what
    /// [`spec_parse_record`] assigns to the line, and `None` exactly when
    /// the line holds no key.
    pub fn parse_line(line: &str) -> (r: Option<Batch>)
        ensures
            record_view(r) == spec_parse_record(line@),
    {
        let ghost s: Seq<char> = line@;
        let n = line.unicode_len();
        let mut key = String::new();
        let mut values: Vec<String> = Vec::new();
        let mut field = String::new();
        let mut i: usize = 0;

        proof {
            assert(values.deep_view() =~= Seq::<Seq<char>>::empty());
        }

        while i < n
            invariant
                s == line@,
                n == s.len(),
                i <= n,
                scan_record(
                    s,
                    0,
                    Seq::<char>::empty(),
                    Seq::<Seq<char>>::empty(),
                    Seq::<char>::empty(),
                ) == scan_record(s, i as int, key@, values.deep_view(), field@),
            decreases n - i,
        {
            let c = line.get_char(i);
            if c == ',' {
                if key.as_str().is_empty() {
                    key = field;
                    field = String::new();
                } else {
                    let ghost vs = values.deep_view();
                    let ghost fv = field@;
                    values.push(field);
                    field = String::new();
                    proof {
                        assert(values.deep_view() =~= vs.push(fv));
                    }
                }
            } else if c.is_whitespace() {
            } else {
                crate::chars::push_char(&mut field, c);
            }
            i = i + 1;
        }

        if !field.as_str().is_empty() {
            if key.as_str().is_empty() {
                key = field;
            } else {
                let ghost vs = values.deep_view();
                let ghost fv = field@;
                values.push(field);
                proof {
                    assert(values.deep_view() =~= vs.push(fv));
                }
            }
        }

        if !key.as_str().is_empty() {
            Some(Batch { key, values })
        } else {
            None
        }
    }
}

} // verus!
