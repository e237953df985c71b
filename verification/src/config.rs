//! The rule file: declarations, named patterns, rules and variables.

use regex::Regex;
use vstd::prelude::*;
use vstd::string::*;

verus! {

/// What a rule file holds.
pub struct Config {
    /// Text that is handed on as it stands.
    pub declarations: String,
    /// The rules in their order: the pattern, with its variables put in, and
    /// the text of the handler.
    pub rules: Vec<(String, String)>,
    /// Text that is handed on as it stands.
    pub variables: String,
}

/// Why a rule file is refused.
#[derive(Debug)]
pub enum ConfigError {
    /// The text has not the sections of a rule file.
    Format,
    /// A pattern names a variable that no definition defines.
    UndefinedVariable(String),
}

/// A rule file as plain values.
pub struct ConfigView {
    pub declarations: Seq<char>,
    pub rules: Seq<(Seq<char>, Seq<char>)>,
    pub variables: Seq<char>,
}

/// An error as plain values.
pub enum ConfigFault {
    Format,
    UndefinedVariable(Seq<char>),
}

impl View for Config {
    type V = ConfigView;

    open spec fn view(&self) -> ConfigView {
        ConfigView {
            declarations: self.declarations@,
            rules: pairs_view(self.rules@),
            variables: self.variables@,
        }
    }
}

impl View for ConfigError {
    type V = ConfigFault;

    open spec fn view(&self) -> ConfigFault {
        match self {
            ConfigError::Format => ConfigFault::Format,
            ConfigError::UndefinedVariable(name) => ConfigFault::UndefinedVariable(name@),
        }
    }
}

/// Pairs of strings as pairs of their characters.
pub open spec fn pairs_view(v: Seq<(String, String)>) -> Seq<(Seq<char>, Seq<char>)> {
    v.map_values(|p: (String, String)| (p.0@, p.1@))
}

/// Declarations, definitions, rules and variables, between `%{`, `%}`, `%%` and `%%`.
pub const SECTIONS: &'static str = "(?s)%\\{(.+?)%\\}(.*?)%%(.*?)%%(.+)";

/// A name, `=`, and a pattern in double quotes.
pub const DEFINITION: &'static str = "(\\w+)\\s*=\\s*\\\"(.*?)\\\"";

/// A pattern, `->`, a handler, `;;`.
pub const RULE: &'static str = "([\\s\\S]*?)->([\\s\\S]*?);;";

/// A variable in braces.
pub const VARIABLE: &'static str = "\\{\\w+\\}";

/// What `captures_all` finds: for each match of `pattern` in `text`, from the
/// left, the text of the whole match and of each group; `None` where `pattern`
/// is no regular expression.
pub uninterp spec fn captures_of(pattern: Seq<char>, text: Seq<char>) -> Option<
    Seq<Seq<Seq<char>>>,
>;

/// What `trimmed` returns: `text` without the white space at its ends.
pub uninterp spec fn trim_of(text: Seq<char>) -> Seq<char>;

/// `text` with every occurrence of `from` replaced by `to`: the occurrences are
/// taken from the left and do not overlap. An empty `from` occurs before every
/// character and at the end.
pub open spec fn replace_of(text: Seq<char>, from: Seq<char>, to: Seq<char>) -> Seq<char>
    decreases text.len(),
{
    if from.len() == 0 {
        if text.len() == 0 {
            to
        } else {
            to + seq![text[0]] + replace_of(text.skip(1), from, to)
        }
    } else if text.len() < from.len() {
        text
    } else if text.take(from.len() as int) == from {
        to + replace_of(text.skip(from.len() as int), from, to)
    } else {
        seq![text[0]] + replace_of(text.skip(1), from, to)
    }
}

/// `Regex::new` and `Regex::captures_iter` of the regex crate: the successive
/// non-overlapping matches of `pattern` in `text`, each as the text of the whole
/// match followed by the text of each group, empty for a group that took no
/// part. The contract claims only that the result is a function of the two
/// arguments.
#[verifier::external_body]
fn captures_all(pattern: &str, text: &str) -> (r: Option<Vec<Vec<String>>>)
    ensures
        r.deep_view() == captures_of(pattern@, text@),
{
    let re = match Regex::new(pattern) {
        Ok(re) => re,
        Err(_) => return None,
    };
    Some(
        re.captures_iter(text).map(
            |c| c.iter().map(|m| m.map_or(String::new(), |m| m.as_str().to_string())).collect(),
        ).collect(),
    )
}

/// `str::trim` of std: the text without leading and trailing white space. The
/// contract claims only that the result is a function of the argument.
#[verifier::external_body]
fn trimmed(text: &str) -> (r: String)
    ensures
        r@ == trim_of(text@),
{
    text.trim().to_string()
}

/// `str::replace` of std: the text with all matches of `from` replaced by
/// `to`. The contract claims that the matches of a string in a text are its
/// occurrences, taken from the left without overlap, and that the empty string
/// matches before every character and at the end.
#[verifier::external_body]
fn replaced(text: &str, from: &str, to: &str) -> (r: String)
    ensures
        r@ == replace_of(text@, from@, to@),
{
    text.replace(from, to)
}


/// The model of a result that holds a text.
pub open spec fn text_result(r: Result<String, ConfigError>) -> Result<Seq<char>, ConfigFault> {
    match r {
        Ok(v) => Ok(v@),
        Err(e) => Err(e@),
    }
}

/// The model of a result that holds pairs of texts.
pub open spec fn pairs_result(r: Result<Vec<(String, String)>, ConfigError>) -> Result<
    Seq<(Seq<char>, Seq<char>)>,
    ConfigFault,
> {
    match r {
        Ok(v) => Ok(pairs_view(v@)),
        Err(e) => Err(e@),
    }
}

/// The model of a result that holds a rule file.
pub open spec fn config_result(r: Result<Config, ConfigError>) -> Result<ConfigView, ConfigFault> {
    match r {
        Ok(v) => Ok(v@),
        Err(e) => Err(e@),
    }
}

/// The first place from `i` on where `name` is defined.
pub open spec fn position_from(defs: Seq<(Seq<char>, Seq<char>)>, name: Seq<char>, i: int) -> Option<
    int,
>
    decreases defs.len() - i,
{
    if i < 0 || i >= defs.len() {
        None
    } else if defs[i].0 == name {
        Some(i)
    } else {
        position_from(defs, name, i + 1)
    }
}

/// What `name` is defined as.
pub open spec fn defined(defs: Seq<(Seq<char>, Seq<char>)>, name: Seq<char>) -> Option<Seq<char>> {
    match position_from(defs, name, 0) {
        Some(i) => Some(defs[i].1),
        None => None,
    }
}

/// The definitions with `key` defined as `value`: in the place of its former
/// definition, or at the end.
pub open spec fn put(defs: Seq<(Seq<char>, Seq<char>)>, key: Seq<char>, value: Seq<char>) -> Seq<
    (Seq<char>, Seq<char>),
> {
    match position_from(defs, key, 0) {
        Some(i) => defs.update(i, (key, value)),
        None => defs.push((key, value)),
    }
}

/// The name of a variable that is written in braces.
pub open spec fn variable_name(var: Seq<char>) -> Seq<char> {
    replace_of(replace_of(var, "{"@, ""@), "}"@, ""@)
}

/// A pattern as a group.
pub open spec fn grouped(value: Seq<char>) -> Seq<char> {
    "("@ + value + ")"@
}

/// The text `res` with the variables `uses[j..]` replaced, one after the
/// other, by the group of what each is defined as.
pub open spec fn substitute_from(
    uses: Seq<Seq<Seq<char>>>,
    j: int,
    defs: Seq<(Seq<char>, Seq<char>)>,
    res: Seq<char>,
) -> Result<Seq<char>, ConfigFault>
    decreases uses.len() - j,
{
    if j < 0 || j >= uses.len() {
        Ok(res)
    } else if uses[j].len() < 1 {
        Err(ConfigFault::Format)
    } else {
        match defined(defs, variable_name(uses[j][0])) {
            None => Err(ConfigFault::UndefinedVariable(variable_name(uses[j][0]))),
            Some(value) => substitute_from(
                uses,
                j + 1,
                defs,
                replace_of(res, uses[j][0], grouped(value)),
            ),
        }
    }
}

/// The text with its variables replaced by what they are defined as.
pub open spec fn substitute(text: Seq<char>, defs: Seq<(Seq<char>, Seq<char>)>) -> Result<
    Seq<char>,
    ConfigFault,
> {
    match captures_of(VARIABLE@, text) {
        None => Err(ConfigFault::Format),
        Some(uses) => substitute_from(uses, 0, defs, text),
    }
}

/// The definitions that the matches `found[j..]` make, added to `acc`.
pub open spec fn definitions_from(
    found: Seq<Seq<Seq<char>>>,
    j: int,
    acc: Seq<(Seq<char>, Seq<char>)>,
) -> Result<Seq<(Seq<char>, Seq<char>)>, ConfigFault>
    decreases found.len() - j,
{
    if j < 0 || j >= found.len() {
        Ok(acc)
    } else if found[j].len() < 3 {
        Err(ConfigFault::Format)
    } else {
        definitions_from(found, j + 1, put(acc, trim_of(found[j][1]), trim_of(found[j][2])))
    }
}

/// The definitions `raw[j..]`, each with the variables of its pattern replaced
/// by what `raw` defines them as, after those of `acc`.
pub open spec fn resolved_from(
    raw: Seq<(Seq<char>, Seq<char>)>,
    j: int,
    acc: Seq<(Seq<char>, Seq<char>)>,
) -> Result<Seq<(Seq<char>, Seq<char>)>, ConfigFault>
    decreases raw.len() - j,
{
    if j < 0 || j >= raw.len() {
        Ok(acc)
    } else {
        match substitute(raw[j].1, raw) {
            Err(e) => Err(e),
            Ok(value) => resolved_from(raw, j + 1, acc.push((raw[j].0, value))),
        }
    }
}

/// The definitions of the definitions section.
pub open spec fn definitions_of(text: Seq<char>) -> Result<
    Seq<(Seq<char>, Seq<char>)>,
    ConfigFault,
> {
    match captures_of(DEFINITION@, text) {
        None => Err(ConfigFault::Format),
        Some(found) => match definitions_from(found, 0, Seq::empty()) {
            Err(e) => Err(e),
            Ok(raw) => resolved_from(raw, 0, Seq::empty()),
        },
    }
}

/// The rules that the matches `found[j..]` make, after those of `acc`.
pub open spec fn rules_from(
    found: Seq<Seq<Seq<char>>>,
    j: int,
    defs: Seq<(Seq<char>, Seq<char>)>,
    acc: Seq<(Seq<char>, Seq<char>)>,
) -> Result<Seq<(Seq<char>, Seq<char>)>, ConfigFault>
    decreases found.len() - j,
{
    if j < 0 || j >= found.len() {
        Ok(acc)
    } else if found[j].len() < 3 {
        Err(ConfigFault::Format)
    } else {
        match substitute(trim_of(found[j][1]), defs) {
            Err(e) => Err(e),
            Ok(pattern) => rules_from(
                found,
                j + 1,
                defs,
                acc.push((pattern, trim_of(found[j][2]))),
            ),
        }
    }
}

/// The rules of the rules section.
pub open spec fn rules_of(text: Seq<char>, defs: Seq<(Seq<char>, Seq<char>)>) -> Result<
    Seq<(Seq<char>, Seq<char>)>,
    ConfigFault,
> {
    match captures_of(RULE@, text) {
        None => Err(ConfigFault::Format),
        Some(found) => rules_from(found, 0, defs, Seq::empty()),
    }
}

/// What a rule file holds.
pub open spec fn config_of(text: Seq<char>) -> Result<ConfigView, ConfigFault> {
    match captures_of(SECTIONS@, text) {
        None => Err(ConfigFault::Format),
        Some(found) => if found.len() < 1 || found[0].len() < 5 {
            Err(ConfigFault::Format)
        } else {
            match definitions_of(found[0][2]) {
                Err(e) => Err(e),
                Ok(defs) => match rules_of(found[0][3], defs) {
                    Err(e) => Err(e),
                    Ok(rules) => Ok(
                        ConfigView { declarations: found[0][1], rules, variables: found[0][4] },
                    ),
                },
            }
        },
    }
}

fn find_definition(defs: &Vec<(String, String)>, name: &String) -> (r: Option<usize>)
    ensures
        match r {
            Some(i) => position_from(pairs_view(defs@), name@, 0) == Some(i as int) && i
                < defs@.len(),
            None => position_from(pairs_view(defs@), name@, 0) is None,
        },
{
    let mut i: usize = 0;
    while i < defs.len()
        invariant
            0 <= i <= defs@.len(),
            position_from(pairs_view(defs@), name@, 0) == position_from(
                pairs_view(defs@),
                name@,
                i as int,
            ),
        decreases defs@.len() - i,
    {
        if defs[i].0 == *name {
            return Some(i);
        }
        i += 1;
    }
    None
}

fn define(defs: &mut Vec<(String, String)>, key: String, value: String)
    ensures
        pairs_view(final(defs)@) == put(pairs_view(old(defs)@), key@, value@),
{
    match find_definition(defs, &key) {
        Some(i) => {
            defs[i] = (key, value);
            assert(pairs_view(defs@) =~= put(pairs_view(old(defs)@), key@, value@));
        },
        None => {
            defs.push((key, value));
            assert(pairs_view(defs@) =~= put(pairs_view(old(defs)@), key@, value@));
        },
    }
}

/// Replaces the variables of a pattern by the groups of what they are defined
/// as; the first that is not defined is the error.
pub fn replace_regex_variables(s: &String, definitions: &Vec<(String, String)>) -> (r: Result<
    String,
    ConfigError,
>)
    ensures
        text_result(r) == substitute(s@, pairs_view(definitions@)),
{
    let uses = match captures_all(VARIABLE, s.as_str()) {
        Some(uses) => uses,
        None => {
            return Err(ConfigError::Format);
        },
    };
    let ghost found = uses.deep_view();
    let ghost defs = pairs_view(definitions@);
    let mut res = s.clone();
    let mut j: usize = 0;
    while j < uses.len()
        invariant
            0 <= j <= uses@.len(),
            found == uses.deep_view(),
            defs == pairs_view(definitions@),
            captures_of(VARIABLE@, s@) == Some(found),
            substitute(s@, defs) == substitute_from(found, j as int, defs, res@),
        decreases uses@.len() - j,
    {
        assert(found[j as int] == uses@[j as int].deep_view());
        if uses[j].len() < 1 {
            return Err(ConfigError::Format);
        }
        let variable = &uses[j][0];
        assert(found[j as int][0] == variable@);
        let name = replaced(replaced(variable.as_str(), "{", "").as_str(), "}", "");
        match find_definition(definitions, &name) {
            Some(i) => {
                let group = String::from_str("(").concat(definitions[i].1.as_str()).concat(")");
                res = replaced(res.as_str(), variable.as_str(), group.as_str());
            },
            None => {
                return Err(ConfigError::UndefinedVariable(name));
            },
        }
        j += 1;
    }
    Ok(res)
}

/// Reads the definitions: each name with its pattern, a later definition of a
/// name in the place of an earlier one, and then every pattern with its
/// variables replaced.
pub fn parse_definations(definitions: &str) -> (r: Result<Vec<(String, String)>, ConfigError>)
    ensures
        pairs_result(r) == definitions_of(definitions@),
{
    let matches = match captures_all(DEFINITION, definitions) {
        Some(matches) => matches,
        None => {
            return Err(ConfigError::Format);
        },
    };
    let ghost found = matches.deep_view();
    let mut raw: Vec<(String, String)> = Vec::new();
    let mut j: usize = 0;
    assert(pairs_view(raw@) =~= Seq::empty());
    while j < matches.len()
        invariant
            0 <= j <= matches@.len(),
            found == matches.deep_view(),
            captures_of(DEFINITION@, definitions@) == Some(found),
            definitions_from(found, 0, Seq::empty()) == definitions_from(
                found,
                j as int,
                pairs_view(raw@),
            ),
        decreases matches@.len() - j,
    {
        assert(found[j as int] == matches@[j as int].deep_view());
        if matches[j].len() < 3 {
            return Err(ConfigError::Format);
        }
        let key = trimmed(matches[j][1].as_str());
        let value = trimmed(matches[j][2].as_str());
        assert(found[j as int][1] == matches@[j as int]@[1]@);
        assert(found[j as int][2] == matches@[j as int]@[2]@);
        define(&mut raw, key, value);
        j += 1;
    }
    let mut res: Vec<(String, String)> = Vec::new();
    let mut k: usize = 0;
    assert(pairs_view(res@) =~= Seq::empty());
    while k < raw.len()
        invariant
            0 <= k <= raw@.len(),
            captures_of(DEFINITION@, definitions@) == Some(found),
            definitions_from(found, 0, Seq::empty()) == Ok::<
                Seq<(Seq<char>, Seq<char>)>,
                ConfigFault,
            >(pairs_view(raw@)),
            resolved_from(pairs_view(raw@), 0, Seq::empty()) == resolved_from(
                pairs_view(raw@),
                k as int,
                pairs_view(res@),
            ),
        decreases raw@.len() - k,
    {
        let value = match replace_regex_variables(&raw[k].1, &raw) {
            Ok(value) => value,
            Err(e) => {
                return Err(e);
            },
        };
        let ghost before = pairs_view(res@);
        res.push((raw[k].0.clone(), value));
        assert(pairs_view(res@) =~= before.push((raw@[k as int].0@, value@)));
        k += 1;
    }
    Ok(res)
}

/// Reads the rules: each pattern, with its variables replaced, and its handler.
pub fn parse_rules(rules: &str, definitions: &Vec<(String, String)>) -> (r: Result<
    Vec<(String, String)>,
    ConfigError,
>)
    ensures
        pairs_result(r) == rules_of(rules@, pairs_view(definitions@)),
{
    let matches = match captures_all(RULE, rules) {
        Some(matches) => matches,
        None => {
            return Err(ConfigError::Format);
        },
    };
    let ghost found = matches.deep_view();
    let ghost defs = pairs_view(definitions@);
    let mut res: Vec<(String, String)> = Vec::new();
    let mut j: usize = 0;
    assert(pairs_view(res@) =~= Seq::empty());
    while j < matches.len()
        invariant
            0 <= j <= matches@.len(),
            found == matches.deep_view(),
            defs == pairs_view(definitions@),
            captures_of(RULE@, rules@) == Some(found),
            rules_from(found, 0, defs, Seq::empty()) == rules_from(
                found,
                j as int,
                defs,
                pairs_view(res@),
            ),
        decreases matches@.len() - j,
    {
        assert(found[j as int] == matches@[j as int].deep_view());
        if matches[j].len() < 3 {
            return Err(ConfigError::Format);
        }
        assert(found[j as int][1] == matches@[j as int]@[1]@);
        assert(found[j as int][2] == matches@[j as int]@[2]@);
        let key = trimmed(matches[j][1].as_str());
        let key = match replace_regex_variables(&key, definitions) {
            Ok(key) => key,
            Err(e) => {
                return Err(e);
            },
        };
        let value = trimmed(matches[j][2].as_str());
        let ghost before = pairs_view(res@);
        res.push((key, value));
        assert(pairs_view(res@) =~= before.push((key@, value@)));
        j += 1;
    }
    Ok(res)
}

/// Reads a rule file from its text.
pub fn parse_config(text: &str) -> (r: Result<Config, ConfigError>)
    ensures
        config_result(r) == config_of(text@),
{
    let matches = match captures_all(SECTIONS, text) {
        Some(matches) => matches,
        None => {
            return Err(ConfigError::Format);
        },
    };
    let ghost found = matches.deep_view();
    if matches.len() < 1 {
        return Err(ConfigError::Format);
    }
    assert(found[0] == matches@[0].deep_view());
    if matches[0].len() < 5 {
        return Err(ConfigError::Format);
    }
    assert(found[0][1] == matches@[0]@[1]@);
    assert(found[0][2] == matches@[0]@[2]@);
    assert(found[0][3] == matches@[0]@[3]@);
    assert(found[0][4] == matches@[0]@[4]@);
    let definitions = match parse_definations(matches[0][2].as_str()) {
        Ok(definitions) => definitions,
        Err(e) => {
            return Err(e);
        },
    };
    let rules = match parse_rules(matches[0][3].as_str(), &definitions) {
        Ok(rules) => rules,
        Err(e) => {
            return Err(e);
        },
    };
    Ok(Config { declarations: matches[0][1].clone(), rules, variables: matches[0][4].clone() })
}

} // verus!
