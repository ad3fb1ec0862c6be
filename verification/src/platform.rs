//! The platforms that resources can be generated for.

use vstd::prelude::*;
use crate::text::{same_chars, to_chars};

verus! {

/// A platform with an emitter of its own.
#[derive(Debug, PartialEq, Eq, Clone, Copy)]
pub enum Platform {
    Android,
    Ios,
}

/// The platform that `name` selects, if it selects one.
pub open spec fn platform_of(name: Seq<char>) -> Option<Platform> {
    if name == "android"@ {
        Some(Platform::Android)
    } else if name == "ios"@ {
        Some(Platform::Ios)
    } else {
        None
    }
}

/// The platform that `name` selects: `android` or `ios`. Any other name selects none.
pub fn select_platform(name: &str) -> (r: Option<Platform>)
    ensures
        r == platform_of(name@),
{
    let chars = to_chars(name);
    if same_chars(&chars, &to_chars("android")) {
        Some(Platform::Android)
    } else if same_chars(&chars, &to_chars("ios")) {
        Some(Platform::Ios)
    } else {
        None
    }
}

} // verus!
