//! Which texts are boot config keys and values: a key is at most 256 bytes
//! of ASCII letters, digits, `-`, `_` and `.`; a value is at most 1024 bytes
//! of printable ASCII. These are the rules of the modeled types
//! `BootConfigKey` and `BootConfigValue` of Bottlerocket's settings model.
//! Parameters read from a settings file are checked against them here too.

use crate::error::{BootConfigError, ErrorView};
use crate::params::{param_entries, params_get_index, params_len, Entry, ParamMap};
use crate::text::{chars_of, string_of};
use vstd::prelude::*;

verus! {

/// The longest key the kernel's boot config takes, in bytes.
pub const MAX_KEY_LEN: usize = 256;

/// The longest value accepted, in bytes.
pub const MAX_VALUE_LEN: usize = 1024;

/// A character of a key: a key word holds ASCII letters, digits, `-` and `_`;
/// key words are separated by `.`.
pub open spec fn is_key_char(c: char) -> bool {
    ||| ('a' <= c && c <= 'z')
    ||| ('A' <= c && c <= 'Z')
    ||| ('0' <= c && c <= '9')
    ||| c == '-'
    ||| c == '_'
    ||| c == '.'
}

/// A boot config key: at most `MAX_KEY_LEN` bytes of key characters.
pub open spec fn is_valid_key(s: Seq<char>) -> bool {
    &&& s.len() <= MAX_KEY_LEN
    &&& forall|i: int| 0 <= i < s.len() ==> is_key_char(#[trigger] s[i])
}

/// A printable ASCII character (not a control character).
pub open spec fn is_printable_ascii(c: char) -> bool {
    ' ' <= c && c <= '~'
}

/// A boot config value: at most `MAX_VALUE_LEN` bytes of printable ASCII.
pub open spec fn is_valid_value(s: Seq<char>) -> bool {
    &&& s.len() <= MAX_VALUE_LEN
    &&& forall|i: int| 0 <= i < s.len() ==> is_printable_ascii(#[trigger] s[i])
}

pub fn key_char(c: char) -> (r: bool)
    ensures
        r == is_key_char(c),
{
    ('a' <= c && c <= 'z') || ('A' <= c && c <= 'Z') || ('0' <= c && c <= '9') || c == '-' || c
        == '_' || c == '.'
}

/// Whether `s[lo..hi]` is a boot config key.
pub fn check_key(s: &Vec<char>, lo: usize, hi: usize) -> (r: bool)
    requires
        lo <= hi <= s.len(),
    ensures
        r == is_valid_key(s@.subrange(lo as int, hi as int)),
{
    if hi - lo > MAX_KEY_LEN {
        return false;
    }
    let mut i = lo;
    while i < hi
        invariant
            lo <= i <= hi <= s.len(),
            forall|j: int| lo <= j < i ==> is_key_char(#[trigger] s@[j]),
        decreases hi - i,
    {
        if !key_char(s[i]) {
            assert(!is_key_char(s@.subrange(lo as int, hi as int)[i - lo]));
            return false;
        }
        i = i + 1;
    }
    assert forall|j: int| 0 <= j < hi - lo implies is_key_char(
        #[trigger] s@.subrange(lo as int, hi as int)[j],
    ) by {
        assert(s@.subrange(lo as int, hi as int)[j] == s@[lo + j]);
    }
    true
}

/// Whether `s[lo..hi]` is a boot config value.
pub fn check_value(s: &Vec<char>, lo: usize, hi: usize) -> (r: bool)
    requires
        lo <= hi <= s.len(),
    ensures
        r == is_valid_value(s@.subrange(lo as int, hi as int)),
{
    if hi - lo > MAX_VALUE_LEN {
        return false;
    }
    let mut i = lo;
    while i < hi
        invariant
            lo <= i <= hi <= s.len(),
            forall|j: int| lo <= j < i ==> is_printable_ascii(#[trigger] s@[j]),
        decreases hi - i,
    {
        if !(' ' <= s[i] && s[i] <= '~') {
            assert(!is_printable_ascii(s@.subrange(lo as int, hi as int)[i - lo]));
            return false;
        }
        i = i + 1;
    }
    assert forall|j: int| 0 <= j < hi - lo implies is_printable_ascii(
        #[trigger] s@.subrange(lo as int, hi as int)[j],
    ) by {
        assert(s@.subrange(lo as int, hi as int)[j] == s@[lo + j]);
    }
    true
}

/// `input` as a boot config key, or why it is not one.
pub fn boot_config_key(input: &str) -> (r: Result<String, BootConfigError>)
    ensures
        match r {
            Ok(k) => is_valid_key(input@) && k@ == input@,
            Err(e) => !is_valid_key(input@) && e@ == crate::error::ErrorView::ParseBootConfigKey(
                input@,
            ),
        },
{
    let s = chars_of(input);
    assert(s@.subrange(0, s@.len() as int) =~= s@);
    if check_key(&s, 0, s.len()) {
        Ok(string_of(&s, 0, s.len()))
    } else {
        Err(BootConfigError::ParseBootConfigKey { input: string_of(&s, 0, s.len()) })
    }
}

/// `input` as a boot config value, or why it is not one.
pub fn boot_config_value(input: &str) -> (r: Result<String, BootConfigError>)
    ensures
        match r {
            Ok(v) => is_valid_value(input@) && v@ == input@,
            Err(e) => !is_valid_value(input@) && e@ == crate::error::ErrorView::ParseBootConfigValue(
                input@,
            ),
        },
{
    let s = chars_of(input);
    assert(s@.subrange(0, s@.len() as int) =~= s@);
    if check_value(&s, 0, s.len()) {
        Ok(string_of(&s, 0, s.len()))
    } else {
        Err(BootConfigError::ParseBootConfigValue { input: string_of(&s, 0, s.len()) })
    }
}

/// The first value of `vs` that is not a boot config value, if any.
pub open spec fn first_invalid_value(vs: Seq<Seq<char>>) -> Option<Seq<char>>
    decreases vs.len(),
{
    if vs.len() == 0 {
        None
    } else if !is_valid_value(vs[0]) {
        Some(vs[0])
    } else {
        first_invalid_value(vs.drop_first())
    }
}

/// The entries checked in order, each key before its values: the first key
/// that is not a boot config key, or the first value that is not a boot
/// config value, is refused.
pub open spec fn check_entries(es: Seq<Entry>) -> Result<(), ErrorView>
    decreases es.len(),
{
    if es.len() == 0 {
        Ok(())
    } else if !is_valid_key(es[0].0) {
        Err(ErrorView::ParseBootConfigKey(es[0].0))
    } else {
        match first_invalid_value(es[0].1) {
            Some(v) => Err(ErrorView::ParseBootConfigValue(v)),
            None => check_entries(es.drop_first()),
        }
    }
}

/// Parameters given as plain strings, checked to be boot config keys and
/// values: given back unchanged if they all are, else the first one that is
/// not is refused.
pub fn checked_params(params: Option<ParamMap>) -> (r: Result<Option<ParamMap>, BootConfigError>)
    ensures
        match r {
            Ok(p) => p == params && (params matches Some(m) ==> check_entries(param_entries(m))
                is Ok),
            Err(e) => params matches Some(m) && check_entries(param_entries(m)) == Err::<
                (),
                ErrorView,
            >(e@),
        },
        r is Ok <==> (params matches Some(m) ==> all_keys_and_values_valid(param_entries(m))),
{
    match params {
        None => Ok(None),
        Some(m) => {
            let ghost es = param_entries(m);
            proof {
                law_check_covers_every_key_and_value(es);
            }
            let n = params_len(&m);
            let mut i: usize = 0;
            assert(es.skip(0) =~= es);
            while i < n
                invariant
                    params == Some(m),
                    check_entries(es) is Ok <==> all_keys_and_values_valid(es),
                    n == es.len(),
                    es == param_entries(m),
                    i <= n,
                    check_entries(es) == check_entries(es.skip(i as int)),
                decreases n - i,
            {
                let (key, values) = match params_get_index(&m, i) {
                    Some(e) => e,
                    None => {
                        assert(false);
                        return Ok(Some(m));
                    },
                };
                let ghost rest = es.skip(i as int);
                assert(rest[0] == es[i as int]);
                assert(rest.drop_first() =~= es.skip(i + 1));
                assert(rest.len() > 0 && rest[0] == (key@, values.deep_view()));
                if let Err(e) = boot_config_key(key.as_str()) {
                    assert(check_entries(rest) == Err::<(), ErrorView>(e@));
                    return Err(e);
                }
                let ghost vs = values.deep_view();
                let mut j: usize = 0;
                assert(vs.skip(0) =~= vs);
                while j < values.len()
                    invariant
                        params == Some(m),
                        check_entries(es) is Ok <==> all_keys_and_values_valid(es),
                        es == param_entries(m),
                        i < es.len(),
                        rest == es.skip(i as int),
                        check_entries(es) == check_entries(rest),
                        rest.len() > 0,
                        rest[0] == (key@, vs),
                        is_valid_key(key@),
                        vs == values.deep_view(),
                        j <= values.len(),
                        first_invalid_value(vs) == first_invalid_value(vs.skip(j as int)),
                    decreases values.len() - j,
                {
                    let ghost vrest = vs.skip(j as int);
                    assert(vrest[0] == vs[j as int]);
                    assert(vrest.drop_first() =~= vs.skip(j + 1));
                    if let Err(e) = boot_config_value(values[j].as_str()) {
                        assert(vs[j as int] == values[j as int]@);
                        assert(first_invalid_value(vs) == Some(vs[j as int]));
                        assert(check_entries(rest) == Err::<(), ErrorView>(e@));
                        return Err(e);
                    }
                    j = j + 1;
                }
                assert(vs.skip(j as int) =~= Seq::<Seq<char>>::empty());
                i = i + 1;
            }
            assert(es.skip(n as int) =~= Seq::<Entry>::empty());
            Ok(Some(m))
        },
    }
}

/// A boot config key is at most 256 characters, each an ASCII letter, a
/// digit, `-`, `_` or `.`.
pub proof fn law_key_characters(s: Seq<char>)
    ensures
        is_valid_key(s) <==> s.len() <= 256 && forall|i: int|
            0 <= i < s.len() ==> {
                let c = #[trigger] s[i];
                ||| 'a' <= c <= 'z'
                ||| 'A' <= c <= 'Z'
                ||| '0' <= c <= '9'
                ||| c == '-' || c == '_' || c == '.'
            },
{
}

/// A boot config value is at most 1024 characters, each printable ASCII
/// (from space to `~`).
pub proof fn law_value_characters(s: Seq<char>)
    ensures
        is_valid_value(s) <==> s.len() <= 1024 && forall|i: int|
            0 <= i < s.len() ==> ' ' <= #[trigger] s[i] <= '~',
{
}

/// Every key of `es` is a boot config key, and every value of every key is
/// a boot config value.
pub open spec fn all_keys_and_values_valid(es: Seq<Entry>) -> bool {
    forall|i: int|
        0 <= i < es.len() ==> is_valid_key(#[trigger] es[i].0) && forall|j: int|
            0 <= j < es[i].1.len() ==> is_valid_value(#[trigger] es[i].1[j])
}

/// Parameters pass the check exactly when every key is a boot config key
/// and every value of every key, the first as much as the others, is a boot
/// config value.
pub proof fn law_check_covers_every_key_and_value(es: Seq<Entry>)
    ensures
        check_entries(es) is Ok <==> all_keys_and_values_valid(es),
    decreases es.len(),
{
    if es.len() > 0 {
        let rest = es.drop_first();
        law_check_covers_every_key_and_value(rest);
        lemma_first_invalid_value(es[0].1);
        assert forall|i: int| 1 <= i < es.len() implies #[trigger] es[i] == rest[i - 1] by {}
        if check_entries(es) is Ok {
            assert(is_valid_key(es[0].0));
            assert(first_invalid_value(es[0].1) is None);
            assert(check_entries(rest) is Ok);
            assert forall|i: int| 0 <= i < es.len() implies is_valid_key(#[trigger] es[i].0)
                && forall|j: int| 0 <= j < es[i].1.len() ==> is_valid_value(#[trigger] es[i].1[j]) by {
                if i > 0 {
                    assert(es[i] == rest[i - 1]);
                    assert(is_valid_key(rest[i - 1].0));
                }
            }
        }
        if forall|i: int|
            0 <= i < es.len() ==> is_valid_key(#[trigger] es[i].0) && forall|j: int|
                0 <= j < es[i].1.len() ==> is_valid_value(#[trigger] es[i].1[j]) {
            assert(is_valid_key(es[0].0));
            assert forall|i: int| 0 <= i < rest.len() implies is_valid_key(#[trigger] rest[i].0)
                && forall|j: int| 0 <= j < rest[i].1.len() ==> is_valid_value(
                #[trigger] rest[i].1[j],
            ) by {
                assert(rest[i] == es[i + 1]);
            }
        }
    }
}

/// `first_invalid_value` finds an invalid value exactly when there is one.
proof fn lemma_first_invalid_value(vs: Seq<Seq<char>>)
    ensures
        first_invalid_value(vs) is None <==> forall|j: int|
            0 <= j < vs.len() ==> is_valid_value(#[trigger] vs[j]),
    decreases vs.len(),
{
    if vs.len() > 0 {
        lemma_first_invalid_value(vs.drop_first());
        assert forall|j: int| 1 <= j < vs.len() implies #[trigger] vs[j] == vs.drop_first()[j - 1] by {}
        if forall|j: int| 1 <= j < vs.len() ==> is_valid_value(#[trigger] vs[j]) {
            assert forall|j: int| 0 <= j < vs.drop_first().len() implies is_valid_value(
                #[trigger] vs.drop_first()[j],
            ) by {
                assert(vs.drop_first()[j] == vs[j + 1]);
            }
        }
    }
}

} // verus!
