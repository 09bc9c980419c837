//! Converting values into Rust types, for code that reads a parsed tree into
//! its own data.

use vstd::prelude::*;
use vstd::string::StringSliceAdditionalSpecFns;

use crate::table::TomlGetError;
use crate::types::{TomlString, TomlValue, TomlValueType};

verus! {

/// Why a value could not be converted.
#[derive(Debug)]
pub enum FromTomlError<'a> {
    /// There was no value to convert.
    Missing,
    /// The key named here had no value.
    InvalidKey(&'a str),
    /// The value had a type other than the one asked for: the value, and the
    /// type asked for.
    TypeMismatch(&'a TomlValue<'a>, TomlValueType),
}

impl<'a> FromTomlError<'a> {
    /// Names the key through which a missing value was looked up; other
    /// errors pass unchanged.
    pub fn add_key_context(self, key: &'a str) -> (r: Self)
        ensures
            self is Missing ==> r == FromTomlError::InvalidKey(key),
            !(self is Missing) ==> r == self,
    {
        match self {
            FromTomlError::Missing => FromTomlError::InvalidKey(key),
            other => other,
        }
    }

    /// The conversion error that a failed table lookup stands for.
    pub fn from_get_error(e: TomlGetError<'a>) -> (r: Self)
        ensures
            e is InvalidKey ==> r is Missing,
            e matches TomlGetError::TypeMismatch(v, ty) ==> r == FromTomlError::TypeMismatch(v, ty),
    {
        match e {
            TomlGetError::InvalidKey => FromTomlError::Missing,
            TomlGetError::TypeMismatch(v, ty) => FromTomlError::TypeMismatch(v, ty),
        }
    }
}

/// Types that can be built from an optional value.
pub trait FromToml<'a>: Sized {
    /// Builds a value of the type from `value`; `None` stands for a missing
    /// value.
    fn from_toml(value: Option<&'a TomlValue<'a>>) -> (r: Result<Self, FromTomlError<'a>>)
        ensures
            value is None ==> (r is Err ==> r->Err_0 is Missing),
    ;
}

impl<'a> FromToml<'a> for bool {
    fn from_toml(value: Option<&'a TomlValue<'a>>) -> (r: Result<bool, FromTomlError<'a>>)
        ensures
            value matches Some(TomlValue::Boolean(b)) ==> r == Ok::<bool, FromTomlError<'a>>(*b),
            value is Some && !(value.unwrap() is Boolean) ==> r == Err::<bool, FromTomlError<'a>>(
                FromTomlError::TypeMismatch(value.unwrap(), TomlValueType::Boolean),
            ),
            value is None ==> r matches Err(FromTomlError::Missing),
    {
        match value {
            Some(TomlValue::Boolean(b)) => Ok(*b),
            Some(v) => Err(FromTomlError::TypeMismatch(v, TomlValueType::Boolean)),
            None => Err(FromTomlError::Missing),
        }
    }
}

impl<'a> FromToml<'a> for i64 {
    fn from_toml(value: Option<&'a TomlValue<'a>>) -> (r: Result<i64, FromTomlError<'a>>)
        ensures
            value matches Some(TomlValue::Integer(i)) ==> r == Ok::<i64, FromTomlError<'a>>(*i),
            value is Some && !(value.unwrap() is Integer) ==> r == Err::<i64, FromTomlError<'a>>(
                FromTomlError::TypeMismatch(value.unwrap(), TomlValueType::Integer),
            ),
            value is None ==> r matches Err(FromTomlError::Missing),
    {
        match value {
            Some(TomlValue::Integer(i)) => Ok(*i),
            Some(v) => Err(FromTomlError::TypeMismatch(v, TomlValueType::Integer)),
            None => Err(FromTomlError::Missing),
        }
    }
}

impl<'a> FromToml<'a> for &'a str {
    fn from_toml(value: Option<&'a TomlValue<'a>>) -> (r: Result<&'a str, FromTomlError<'a>>)
        ensures
            value matches Some(TomlValue::String(ts)) ==> r matches Ok(x) && (ts.wf() && vstd::utf8::valid_utf8(
                ts.content(),
            ) ==> x.spec_bytes() == ts.content()),
            value is Some && !(value.unwrap() is String) ==> r == Err::<&'a str, FromTomlError<'a>>(
                FromTomlError::TypeMismatch(value.unwrap(), TomlValueType::String),
            ),
            value is None ==> r matches Err(FromTomlError::Missing),
    {
        match value {
            Some(TomlValue::String(s)) => Ok(str_of(s)),
            Some(v) => Err(FromTomlError::TypeMismatch(v, TomlValueType::String)),
            None => Err(FromTomlError::Missing),
        }
    }
}

/// The text of a string value, borrowed for as long as the value.
fn str_of<'a>(s: &'a TomlString<'a>) -> (r: &'a str)
    ensures
        s.wf() && vstd::utf8::valid_utf8(s.content()) ==> r.spec_bytes() == s.content(),
{
    s.as_str()
}

impl<'a> FromToml<'a> for String {
    fn from_toml(value: Option<&'a TomlValue<'a>>) -> (r: Result<String, FromTomlError<'a>>)
        ensures
            value matches Some(TomlValue::String(ts)) ==> r matches Ok(x) && (ts.wf() && vstd::utf8::valid_utf8(
                ts.content(),
            ) ==> vstd::utf8::encode_utf8(x@) == ts.content()),
            value is Some && !(value.unwrap() is String) ==> r == Err::<String, FromTomlError<'a>>(
                FromTomlError::TypeMismatch(value.unwrap(), TomlValueType::String),
            ),
            value is None ==> r matches Err(FromTomlError::Missing),
    {
        match value {
            Some(TomlValue::String(s)) => Ok(str_of(s).to_owned()),
            Some(v) => Err(FromTomlError::TypeMismatch(v, TomlValueType::String)),
            None => Err(FromTomlError::Missing),
        }
    }
}

impl<'a, T: FromToml<'a>> FromToml<'a> for Vec<T> {
    fn from_toml(value: Option<&'a TomlValue<'a>>) -> (r: Result<Vec<T>, FromTomlError<'a>>)
        ensures
            value matches Some(TomlValue::Array(a, _)) ==> (r matches Ok(x) ==> x@.len() == a@.len() && forall|i: int|
                0 <= i < x@.len() ==> call_ensures(T::from_toml, (Some(&a@[i]),), Ok::<T, FromTomlError<'a>>(#[trigger] x@[i]))),
            value matches Some(TomlValue::Array(a, _)) ==> (r matches Err(e) ==> exists|i: int|
                0 <= i < a@.len() && #[trigger] call_ensures(T::from_toml, (Some(&a@[i]),), Err::<T, FromTomlError<'a>>(e))),
            value is Some && !(value.unwrap() is Array) ==> r == Err::<Vec<T>, FromTomlError<'a>>(
                FromTomlError::TypeMismatch(value.unwrap(), TomlValueType::Array),
            ),
            value is None ==> r matches Err(FromTomlError::Missing),
    {
        match value {
            Some(TomlValue::Array(arr, _)) => {
                let mut out: Vec<T> = Vec::new();
                let mut i: usize = 0;
                while i < arr.len()
                    invariant
                        i <= arr@.len(),
                        out@.len() == i,
                        forall|j: int| 0 <= j < i ==> call_ensures(T::from_toml, (Some(&arr@[j]),), Ok::<T, FromTomlError<'a>>(#[trigger] out@[j])),
                        value matches Some(TomlValue::Array(a2, _)) && a2@ == arr@,
                        value is Some,
                    decreases arr@.len() - i,
                {
                    match T::from_toml(Some(&arr[i])) {
                        Ok(x) => out.push(x),
                        Err(e) => {
                            return Err(e);
                        },
                    }
                    i = i + 1;
                }
                Ok(out)
            },
            Some(v) => Err(FromTomlError::TypeMismatch(v, TomlValueType::Array)),
            None => Err(FromTomlError::Missing),
        }
    }
}

impl<'a, T: FromToml<'a>> FromToml<'a> for std::collections::HashMap<&'a str, T> {
    fn from_toml(value: Option<&'a TomlValue<'a>>) -> (r: Result<std::collections::HashMap<&'a str, T>, FromTomlError<'a>>)
        ensures
            value matches Some(TomlValue::Table(tb)) ==> (r matches Err(e) ==> exists|i: int|
                0 <= i < tb.entries@.len() && #[trigger] call_ensures(
                    T::from_toml,
                    (Some(&tb.entries@[i].1),),
                    Err::<T, FromTomlError<'a>>(e),
                )),
            value is Some && !(value.unwrap() is Table) ==> r == Err::<std::collections::HashMap<&'a str, T>, FromTomlError<'a>>(
                FromTomlError::TypeMismatch(value.unwrap(), TomlValueType::Table),
            ),
            value is None ==> r matches Err(FromTomlError::Missing),
    {
        match value {
            Some(TomlValue::Table(tb)) => {
                let mut out: std::collections::HashMap<&'a str, T> = std::collections::HashMap::new();
                let mut i: usize = 0;
                while i < tb.entries.len()
                    invariant
                        i <= tb.entries@.len(),
                        value matches Some(TomlValue::Table(t2)) && t2.entries@ == tb.entries@,
                    decreases tb.entries@.len() - i,
                {
                    let entry = &tb.entries[i];
                    match T::from_toml(Some(&entry.1)) {
                        Ok(x) => {
                            out.insert(entry.0.as_str(), x);
                        },
                        Err(e) => {
                            return Err(e);
                        },
                    }
                    i = i + 1;
                }
                Ok(out)
            },
            Some(v) => Err(FromTomlError::TypeMismatch(v, TomlValueType::Table)),
            None => Err(FromTomlError::Missing),
        }
    }
}

impl<'a, T: FromToml<'a>> FromToml<'a> for Option<T> {
    fn from_toml(value: Option<&'a TomlValue<'a>>) -> (r: Result<Option<T>, FromTomlError<'a>>)
        ensures
            value is None ==> r matches Ok(None),
            value is Some ==> (r matches Ok(x) ==> x is Some && call_ensures(T::from_toml, (value,), Ok::<T, FromTomlError<'a>>(x->Some_0))),
            value is Some ==> (r matches Err(e) ==> call_ensures(T::from_toml, (value,), Err::<T, FromTomlError<'a>>(e))),
    {
        match value {
            Some(v) => match T::from_toml(Some(v)) {
                Ok(x) => Ok(Some(x)),
                Err(e) => Err(e),
            },
            None => Ok(None),
        }
    }
}

/// The other direction of `FromToml`: turns an optional value into `T`.
pub trait TomlTryInto<'a, T>: Sized {
    /// Converts into `T`.
    fn toml_try_into(self) -> (r: Result<T, FromTomlError<'a>>);
}

impl<'a, T: FromToml<'a>> TomlTryInto<'a, T> for Option<&'a TomlValue<'a>> {
    fn toml_try_into(self) -> (r: Result<T, FromTomlError<'a>>)
        ensures
            call_ensures(T::from_toml, (self,), r),
    {
        T::from_toml(self)
    }
}

} // verus!
