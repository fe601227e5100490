use vstd::prelude::*;
use vstd::string::StringExecFns;
use yaml_rust::{Yaml, YamlLoader};

verus! {

#[verifier::external_type_specification]
#[verifier::external_body]
pub struct ExYaml(Yaml);

/// A YAML node as plain values, one variant for each of `yaml_rust::Yaml`'s:
/// a real number is kept as its text, and a mapping as its (key, value)
/// pairs in their order.
pub enum YamlValue {
    Real(String),
    Integer(i64),
    Str(String),
    Boolean(bool),
    Array(Vec<YamlValue>),
    Hash(Vec<(YamlValue, YamlValue)>),
    Alias(usize),
    Null,
    BadValue,
}

/// The documents of the YAML text `text`, each converted node for node into
/// a `YamlValue`, or `None` when `text` is not valid YAML.
pub uninterp spec fn yaml_documents(text: Seq<char>) -> Option<Seq<YamlValue>>;

/// Converts one node of `yaml_rust::Yaml` into the same node as a
/// `YamlValue`, its children converted in turn. Only
/// `load_yaml_documents` calls it, whose contract covers the result.
#[verifier::external_body]
fn yaml_value(y: &Yaml) -> YamlValue {
    match y {
        Yaml::Real(s) => YamlValue::Real(s.clone()),
        Yaml::Integer(i) => YamlValue::Integer(*i),
        Yaml::String(s) => YamlValue::Str(s.clone()),
        Yaml::Boolean(b) => YamlValue::Boolean(*b),
        Yaml::Array(a) => YamlValue::Array(a.iter().map(yaml_value).collect()),
        Yaml::Hash(h) => YamlValue::Hash(h.iter().map(|(k, v)| (yaml_value(k), yaml_value(v))).collect()),
        Yaml::Alias(n) => YamlValue::Alias(*n),
        Yaml::Null => YamlValue::Null,
        Yaml::BadValue => YamlValue::BadValue,
    }
}

/// Parses `text` with `yaml_rust::YamlLoader::load_from_str` and converts
/// each document, node for node, into a `YamlValue`. The contract claims
/// that the result depends on the text alone (`yaml_documents`), and is
/// `None` exactly when the parser reports an error; what the documents hold
/// is not stated.
#[verifier::external_body]
fn load_yaml_documents(text: &str) -> (r: Option<Vec<YamlValue>>)
    ensures
        match r {
            Some(docs) => yaml_documents(text@) == Some(docs@),
            None => yaml_documents(text@) is None,
        },
{
    match YamlLoader::load_from_str(text) {
        Ok(docs) => Some(docs.iter().map(yaml_value).collect()),
        Err(_) => None,
    }
}

/// Whether `k` is the string key `key`.
pub open spec fn is_key(k: YamlValue, key: Seq<char>) -> bool {
    match k {
        YamlValue::Str(s) => s@ == key,
        _ => false,
    }
}

/// The value of the first of `pairs`, from index `i` on, whose key is the
/// string `key`, if any.
pub open spec fn pairs_get(pairs: Seq<(YamlValue, YamlValue)>, key: Seq<char>, i: int) -> Option<
    YamlValue,
>
    decreases pairs.len() - i,
{
    if i < 0 || i >= pairs.len() {
        None
    } else if is_key(pairs[i].0, key) {
        Some(pairs[i].1)
    } else {
        pairs_get(pairs, key, i + 1)
    }
}

/// The value under the string key `key` in the mapping `doc`; `None` when
/// `doc` is not a mapping or has no such key (where `yaml_rust` gives its
/// bad value).
pub open spec fn yaml_get(doc: YamlValue, key: Seq<char>) -> Option<YamlValue> {
    match doc {
        YamlValue::Hash(pairs) => pairs_get(pairs@, key, 0),
        _ => None,
    }
}

/// Looks `key` up in the mapping `doc`.
pub fn yaml_lookup<'a>(doc: &'a YamlValue, key: &String) -> (r: Option<&'a YamlValue>)
    ensures
        match r {
            Some(v) => yaml_get(*doc, key@) == Some(*v),
            None => yaml_get(*doc, key@) is None,
        },
{
    match doc {
        YamlValue::Hash(pairs) => {
            let mut i: usize = 0;
            while i < pairs.len()
                invariant
                    i <= pairs@.len(),
                    yaml_get(*doc, key@) == pairs_get(pairs@, key@, i as int),
                decreases pairs@.len() - i,
            {
                let is_match = match &pairs[i].0 {
                    YamlValue::Str(s) => *s == *key,
                    _ => false,
                };
                if is_match {
                    return Some(&pairs[i].1);
                }
                i = i + 1;
            }
            None
        },
        _ => None,
    }
}

/// Why a profile could not be loaded.
#[derive(Clone, Copy, Debug, PartialEq, Eq, Structural)]
pub enum ProfileError {
    /// The file is not valid YAML.
    InvalidYaml,
    /// The file holds no YAML document.
    NoDocument,
    /// The first document has no string `name`.
    InvalidName,
    /// The first document has no list `modules`.
    InvalidModuleList,
    /// An entry of `modules` is not a string.
    InvalidModule,
}

/// A game profile: its name and the modules it asks for, each written as a
/// requirement string.
pub struct Profile {
    pub name: String,
    pub modules: Vec<String>,
}

impl View for Profile {
    type V = (Seq<char>, Seq<Seq<char>>);

    open spec fn view(&self) -> Self::V {
        (self.name@, self.modules@.map_values(|s: String| s@))
    }
}

/// The text of a string node; empty for any other node.
pub open spec fn node_text(v: YamlValue) -> Seq<char> {
    match v {
        YamlValue::Str(s) => s@,
        _ => Seq::empty(),
    }
}

/// The profile that YAML documents describe: the first document's string
/// `name` and its list `modules` of strings, or why there is none. The name
/// is checked before the list, and the list before its entries.
pub open spec fn profile_from_documents(docs: Seq<YamlValue>) -> Result<
    (Seq<char>, Seq<Seq<char>>),
    ProfileError,
> {
    if docs.len() == 0 {
        Err(ProfileError::NoDocument)
    } else {
        match yaml_get(docs[0], "name"@) {
            Some(YamlValue::Str(name)) => match yaml_get(docs[0], "modules"@) {
                Some(YamlValue::Array(items)) => if exists|i: int|
                    0 <= i < items@.len() && !(#[trigger] items@[i] is Str) {
                    Err(ProfileError::InvalidModule)
                } else {
                    Ok((name@, items@.map_values(|m: YamlValue| node_text(m))))
                },
                _ => Err(ProfileError::InvalidModuleList),
            },
            _ => Err(ProfileError::InvalidName),
        }
    }
}

/// The profile that a YAML text describes, or why there is none.
pub open spec fn profile_from_text(text: Seq<char>) -> Result<(Seq<char>, Seq<Seq<char>>), ProfileError> {
    match yaml_documents(text) {
        None => Err(ProfileError::InvalidYaml),
        Some(docs) => profile_from_documents(docs),
    }
}

/// Whether `r` is the profile, or the error, that `expected` describes.
pub open spec fn profile_result_is(
    r: Result<Profile, ProfileError>,
    expected: Result<(Seq<char>, Seq<Seq<char>>), ProfileError>,
) -> bool {
    match r {
        Ok(p) => expected == Ok::<(Seq<char>, Seq<Seq<char>>), ProfileError>(p@),
        Err(e) => expected == Err::<(Seq<char>, Seq<Seq<char>>), ProfileError>(e),
    }
}

impl Profile {
    /// The profile that the parsed documents `docs` describe, or why they
    /// describe none.
    fn read_documents(docs: &Vec<YamlValue>) -> (r: Result<Profile, ProfileError>)
        ensures
            profile_result_is(r, profile_from_documents(docs@)),
    {
        if docs.len() == 0 {
            return Err(ProfileError::NoDocument);
        }
        let doc = &docs[0];
        let name_key = String::from_str("name");
        let modules_key = String::from_str("modules");
        proof {
            reveal_strlit("name");
            reveal_strlit("modules");
        }
        let name = match yaml_lookup(doc, &name_key) {
            Some(YamlValue::Str(n)) => n.clone(),
            _ => {
                return Err(ProfileError::InvalidName);
            },
        };
        let items = match yaml_lookup(doc, &modules_key) {
            Some(YamlValue::Array(items)) => items,
            _ => {
                return Err(ProfileError::InvalidModuleList);
            },
        };
        let ghost list = *items;
        assert(yaml_get(docs@[0], "modules"@) == Some(YamlValue::Array(list)));
        let mut modules: Vec<String> = Vec::new();
        let mut i: usize = 0;
        while i < items.len()
            invariant
                i <= items@.len(),
                list == *items,
                docs@.len() > 0,
                yaml_get(docs@[0], "name"@) is Some,
                yaml_get(docs@[0], "name"@)->0 is Str,
                yaml_get(docs@[0], "modules"@) == Some(YamlValue::Array(list)),
                modules@.len() == i,
                forall|j: int|
                    0 <= j < i ==> (#[trigger] items@[j] is Str) && modules@[j]@ == node_text(
                        items@[j],
                    ),
            decreases items@.len() - i,
        {
            match &items[i] {
                YamlValue::Str(s) => {
                    modules.push(s.clone());
                },
                _ => {
                    assert(!(items@[i as int] is Str));
                    assert(exists|j: int| 0 <= j < items@.len() && !(#[trigger] items@[j] is Str));
                    return Err(ProfileError::InvalidModule);
                },
            }
            i = i + 1;
        }
        let p = Profile { name, modules };
        assert(p@.1 =~= items@.map_values(|m: YamlValue| node_text(m)));
        Ok(p)
    }

    /// The profile that the parsed documents `docs` describe: the first
    /// document has a string `name` and a list `modules` of strings.
    pub fn from_documents(docs: Vec<YamlValue>) -> (p: Profile)
        requires
            profile_from_documents(docs@) is Ok,
        ensures
            profile_from_documents(docs@) == Ok::<(Seq<char>, Seq<Seq<char>>), ProfileError>(p@),
    {
        match Profile::read_documents(&docs) {
            Ok(p) => p,
            Err(_) => Profile { name: String::new(), modules: Vec::new() },
        }
    }

    /// Reads a profile from the YAML text of a profile file; the error says
    /// why the text describes none, where loading the profile fails.
    pub fn parse(text: &str) -> (r: Result<Profile, ProfileError>)
        ensures
            profile_result_is(r, profile_from_text(text@)),
    {
        match load_yaml_documents(text) {
            Some(docs) => Profile::read_documents(&docs),
            None => Err(ProfileError::InvalidYaml),
        }
    }
}

} // verus!
