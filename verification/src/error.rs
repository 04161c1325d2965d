//! Why a boot config text is refused.

use vstd::prelude::*;

verus! {

/// The reasons for which a boot config text, or a part of it, is refused.
#[derive(Debug)]
pub enum BootConfigError {
    /// A value holds a non-ASCII character, or, unquoted, one of the
    /// characters that only a quoted value may hold.
    InvalidBootConfigValue { input: String },
    /// A value (without its quotes) that boot config values may not be.
    ParseBootConfigValue { input: String },
    /// A key that boot config keys may not be.
    ParseBootConfigKey { input: String },
    /// Something other than white space or a comma follows a quoted value.
    ExpectedArrayComma { input: String },
    /// A quote is opened and not closed.
    UnbalancedQuotes { input: String },
    /// `kernel` or `init` given a value other than the empty string.
    ParentBootConfigKey,
    /// A key outside the `kernel` and `init` sections.
    UnsupportedBootConfigKey { key: String },
}

/// How a reading of boot config text ends when it does not succeed: a
/// `BootConfigError` (with its text as character sequences), or
/// `SliceInsideCharacter`, which no `BootConfigError` stands for: the reading
/// would slice the text at a UTF-8 byte offset that falls inside a character,
/// on which `str` slicing panics. The readers require that this does not
/// happen; `try_parse_boot_config` and `try_parse_boot_config_values` report
/// it as `None`.
pub enum ErrorView {
    InvalidBootConfigValue(Seq<char>),
    ParseBootConfigValue(Seq<char>),
    ParseBootConfigKey(Seq<char>),
    ExpectedArrayComma(Seq<char>),
    UnbalancedQuotes(Seq<char>),
    ParentBootConfigKey,
    UnsupportedBootConfigKey(Seq<char>),
    SliceInsideCharacter,
}

impl View for BootConfigError {
    type V = ErrorView;

    open spec fn view(&self) -> ErrorView {
        match self {
            BootConfigError::InvalidBootConfigValue { input } => ErrorView::InvalidBootConfigValue(
                input@,
            ),
            BootConfigError::ParseBootConfigValue { input } => ErrorView::ParseBootConfigValue(
                input@,
            ),
            BootConfigError::ParseBootConfigKey { input } => ErrorView::ParseBootConfigKey(input@),
            BootConfigError::ExpectedArrayComma { input } => ErrorView::ExpectedArrayComma(input@),
            BootConfigError::UnbalancedQuotes { input } => ErrorView::UnbalancedQuotes(input@),
            BootConfigError::ParentBootConfigKey => ErrorView::ParentBootConfigKey,
            BootConfigError::UnsupportedBootConfigKey { key } => ErrorView::UnsupportedBootConfigKey(
                key@,
            ),
        }
    }
}

/// The view of an executable result.
pub open spec fn result_view<T: View>(r: Result<T, BootConfigError>) -> Result<T::V, ErrorView> {
    match r {
        Ok(v) => Ok(v@),
        Err(e) => Err(e@),
    }
}

/// The reading ran to an end: it did not stop at a slice inside a character.
pub open spec fn completes<T>(r: Result<T, ErrorView>) -> bool {
    !(r matches Err(ErrorView::SliceInsideCharacter))
}

/// The view of an executable result that is `None` where the reading stopped
/// at a slice inside a character.
pub open spec fn opt_result_view<T: View>(r: Option<Result<T, BootConfigError>>) -> Result<
    T::V,
    ErrorView,
> {
    match r {
        Some(r) => result_view(r),
        None => Err(ErrorView::SliceInsideCharacter),
    }
}

} // verus!
