//! Command-line arguments: paths to inspect, the store to use, and the
//! help, version and derivation switches.
use vstd::prelude::*;

use crate::store_path::ids;
use crate::text::chars_of;

verus! {

/// What the command line asked for.
pub struct Config {
    pub paths: Vec<String>,
    pub derivation: bool,
    pub store: Option<String>,
    pub help: bool,
    pub version: bool,
}

/// A command line that cannot be used.
pub enum ArgError {
    /// `--store` came last, without its value.
    MissingStoreValue,
    /// An argument starting with `-` that is no known option.
    UnknownOption(String),
}

/// The content of a [`Config`]: paths, derivation, store, help, version.
pub type ConfigModel = (Seq<Seq<char>>, bool, Option<Seq<char>>, bool, bool);

impl Config {
    pub open spec fn model(&self) -> ConfigModel {
        (
            ids(self.paths@),
            self.derivation,
            match self.store {
                Some(s) => Some(s@),
                None => None,
            },
            self.help,
            self.version,
        )
    }
}

pub open spec fn empty_model() -> ConfigModel {
    (Seq::empty(), false, None, false, false)
}

pub open spec fn store_eq_prefix() -> Seq<char> {
    seq!['-', '-', 's', 't', 'o', 'r', 'e', '=']
}

/// Reads `args` from position `i` on into `m`. An error is `None` for a
/// `--store` without value and `Some(arg)` for an unknown option `arg`.
/// `-h`/`--help` and `-v`/`--version` stop reading.
pub open spec fn parse_model(args: Seq<Seq<char>>, i: int, m: ConfigModel) -> Result<
    ConfigModel,
    Option<Seq<char>>,
>
    decreases args.len() - i,
{
    if i < 0 || i >= args.len() {
        Ok(m)
    } else {
        let a = args[i];
        if a == seq!['-', 'h'] || a == seq!['-', '-', 'h', 'e', 'l', 'p'] {
            Ok((m.0, m.1, m.2, true, m.4))
        } else if a == seq!['-', 'v'] || a == seq!['-', '-', 'v', 'e', 'r', 's', 'i', 'o', 'n'] {
            Ok((m.0, m.1, m.2, m.3, true))
        } else if a == seq!['-', 'd'] || a == seq![
            '-',
            '-',
            'd',
            'e',
            'r',
            'i',
            'v',
            'a',
            't',
            'i',
            'o',
            'n',
        ] {
            parse_model(args, i + 1, (m.0, true, m.2, m.3, m.4))
        } else if a == seq!['-', '-', 's', 't', 'o', 'r', 'e'] {
            if i + 1 >= args.len() {
                Err(None)
            } else {
                parse_model(args, i + 2, (m.0, m.1, Some(args[i + 1]), m.3, m.4))
            }
        } else if a.len() >= 8 && a.subrange(0, 8) == store_eq_prefix() {
            parse_model(args, i + 1, (m.0, m.1, Some(a.skip(8)), m.3, m.4))
        } else if a.len() > 0 && a[0] == '-' {
            Err(Some(a))
        } else {
            parse_model(args, i + 1, (m.0.push(a), m.1, m.2, m.3, m.4))
        }
    }
}

fn chars_eq(a: &Vec<char>, b: &Vec<char>) -> (r: bool)
    ensures
        r == (a@ == b@),
{
    if a.len() != b.len() {
        return false;
    }
    let mut k: usize = 0;
    while k < a.len()
        invariant
            a@.len() == b@.len(),
            k <= a@.len(),
            forall|m: int| 0 <= m < k ==> a@[m] == b@[m],
        decreases a@.len() - k,
    {
        if a[k] != b[k] {
            return false;
        }
        k = k + 1;
    }
    assert(a@ =~= b@);
    true
}

fn has_prefix(a: &Vec<char>, pre: &Vec<char>) -> (r: bool)
    ensures
        r == (a@.len() >= pre@.len() && a@.subrange(0, pre@.len() as int) == pre@),
{
    if a.len() < pre.len() {
        return false;
    }
    let mut k: usize = 0;
    while k < pre.len()
        invariant
            a@.len() >= pre@.len(),
            k <= pre@.len(),
            forall|m: int| 0 <= m < k ==> a@[m] == pre@[m],
        decreases pre@.len() - k,
    {
        if a[k] != pre[k] {
            assert(a@.subrange(0, pre@.len() as int)[k as int] != pre@[k as int]);
            return false;
        }
        k = k + 1;
    }
    assert(a@.subrange(0, pre@.len() as int) =~= pre@);
    true
}

/// Parses a command line whose first element is the program name.
pub fn parse_args(args: &Vec<String>) -> (r: Result<Config, ArgError>)
    ensures
        match (r, parse_model(ids(args@), 1, empty_model())) {
            (Ok(c), Ok(m)) => c.model() == m,
            (Err(ArgError::MissingStoreValue), Err(None)) => true,
            (Err(ArgError::UnknownOption(s)), Err(Some(a))) => s@ == a,
            _ => false,
        },
{
    let ghost all = ids(args@);
    let mut config = Config {
        paths: Vec::new(),
        derivation: false,
        store: None,
        help: false,
        version: false,
    };
    proof {
        assert(ids(config.paths@) =~= Seq::<Seq<char>>::empty());
    }
    let help_short = vec!['-', 'h'];
    let help_long = vec!['-', '-', 'h', 'e', 'l', 'p'];
    let version_short = vec!['-', 'v'];
    let version_long = vec!['-', '-', 'v', 'e', 'r', 's', 'i', 'o', 'n'];
    let drv_short = vec!['-', 'd'];
    let drv_long = vec!['-', '-', 'd', 'e', 'r', 'i', 'v', 'a', 't', 'i', 'o', 'n'];
    let store_flag = vec!['-', '-', 's', 't', 'o', 'r', 'e'];
    let store_eq = vec!['-', '-', 's', 't', 'o', 'r', 'e', '='];
    proof {
        assert(help_short@ =~= seq!['-', 'h']);
        assert(help_long@ =~= seq!['-', '-', 'h', 'e', 'l', 'p']);
        assert(version_short@ =~= seq!['-', 'v']);
        assert(version_long@ =~= seq!['-', '-', 'v', 'e', 'r', 's', 'i', 'o', 'n']);
        assert(drv_short@ =~= seq!['-', 'd']);
        assert(drv_long@ =~= seq!['-', '-', 'd', 'e', 'r', 'i', 'v', 'a', 't', 'i', 'o', 'n']);
        assert(store_flag@ =~= seq!['-', '-', 's', 't', 'o', 'r', 'e']);
        assert(store_eq@ =~= store_eq_prefix());
    }
    let mut i: usize = 1;
    while i < args.len()
        invariant
            all == ids(args@),
            help_short@ == seq!['-', 'h'],
            help_long@ == seq!['-', '-', 'h', 'e', 'l', 'p'],
            version_short@ == seq!['-', 'v'],
            version_long@ == seq!['-', '-', 'v', 'e', 'r', 's', 'i', 'o', 'n'],
            drv_short@ == seq!['-', 'd'],
            drv_long@ == seq!['-', '-', 'd', 'e', 'r', 'i', 'v', 'a', 't', 'i', 'o', 'n'],
            store_flag@ == seq!['-', '-', 's', 't', 'o', 'r', 'e'],
            store_eq@ == store_eq_prefix(),
            1 <= i,
            parse_model(all, 1, empty_model()) == parse_model(all, i as int, config.model()),
            !config.help,
            !config.version,
        decreases args@.len() - i,
    {
        let a = chars_of(&args[i]);
        assert(a@ == all[i as int]);
        if chars_eq(&a, &help_short) || chars_eq(&a, &help_long) {
            config.help = true;
            return Ok(config);
        }
        if chars_eq(&a, &version_short) || chars_eq(&a, &version_long) {
            config.version = true;
            return Ok(config);
        }
        if chars_eq(&a, &drv_short) || chars_eq(&a, &drv_long) {
            config.derivation = true;
        } else if chars_eq(&a, &store_flag) {
            if i + 1 >= args.len() {
                return Err(ArgError::MissingStoreValue);
            }
            config.store = Some(args[i + 1].clone());
            i = i + 1;
        } else if has_prefix(&a, &store_eq) {
            let st = args[i].as_str();
            let len = st.unicode_len();
            config.store = Some(st.substring_char(8, len).to_owned());
        } else if a.len() > 0 && a[0] == '-' {
            return Err(ArgError::UnknownOption(args[i].clone()));
        } else {
            let ghost before = config.paths@;
            config.paths.push(args[i].clone());
            assert(ids(config.paths@) =~= ids(before).push(all[i as int]));
        }
        i = i + 1;
    }
    Ok(config)
}

} // verus!
