//! What the caller asks for: the kind of dependency table to edit, the feature
//! edits, and the default-features toggle.
use vstd::prelude::*;
use vstd::string::StringExecFns;
use crate::names::str_eq;

verus! {

/// The section a dependency table comes from.
#[derive(Clone, Copy, Debug, PartialEq, Eq, Structural)]
pub enum DependencyType {
    Normal,
    Dev,
    Build,
}

impl DependencyType {
    /// Reads `normal`, `dev` or `build` (case matters); any other text gives
    /// the error message `<text> is not valid dependency type`.
    pub fn from_str(s: &str) -> (r: Result<DependencyType, String>)
        ensures
            s@ == "normal"@ ==> r == Ok::<DependencyType, String>(DependencyType::Normal),
            s@ == "dev"@ ==> r == Ok::<DependencyType, String>(DependencyType::Dev),
            s@ == "build"@ ==> r == Ok::<DependencyType, String>(DependencyType::Build),
            s@ != "normal"@ && s@ != "dev"@ && s@ != "build"@
                ==> r is Err && r->Err_0@ == s@ + " is not valid dependency type"@,
    {
        proof {
            reveal_strlit("normal");
            reveal_strlit("dev");
            reveal_strlit("build");
            assert("dev"@.len() == 3 && "build"@.len() == 5 && "normal"@.len() == 6);
        }
        if str_eq(s, "normal") {
            Ok(DependencyType::Normal)
        } else if str_eq(s, "dev") {
            Ok(DependencyType::Dev)
        } else if str_eq(s, "build") {
            Ok(DependencyType::Build)
        } else {
            let mut message = s.to_owned();
            message.append(" is not valid dependency type");
            Err(message)
        }
    }
}

/// Whether a feature is to be added to the list or taken out of it.
#[derive(Clone, Copy, Debug, PartialEq, Eq, Structural)]
pub enum DependencyCommand {
    Add,
    Remove,
}

/// The command and the feature name that a request word stands for:
/// a leading `+` adds, a leading `^` removes, and a bare name adds.
pub open spec fn parsed_feature(s: Seq<char>) -> (DependencyCommand, Seq<char>) {
    if s.len() > 0 && s[0] == '+' {
        (DependencyCommand::Add, s.drop_first())
    } else if s.len() > 0 && s[0] == '^' {
        (DependencyCommand::Remove, s.drop_first())
    } else {
        (DependencyCommand::Add, s)
    }
}

/// Splits a request word into its command and the feature name.
pub fn parse_feature(feature: &str) -> (r: (DependencyCommand, &str))
    ensures
        (r.0, r.1@) == parsed_feature(feature@),
{
    let n = feature.unicode_len();
    if n > 0 {
        let c = feature.get_char(0);
        if c == '+' {
            return (DependencyCommand::Add, feature.substring_char(1, n));
        } else if c == '^' {
            return (DependencyCommand::Remove, feature.substring_char(1, n));
        }
    }
    (DependencyCommand::Add, feature)
}

/// One edit of one feature, for the tables of one kind.
#[derive(Clone, Debug)]
pub struct FeatureRequest {
    pub kind: DependencyType,
    pub name: String,
    pub command: DependencyCommand,
}

/// A feature request as values.
pub struct RequestView {
    pub kind: DependencyType,
    pub name: Seq<char>,
    pub command: DependencyCommand,
}

impl View for FeatureRequest {
    type V = RequestView;

    open spec fn view(&self) -> RequestView {
        RequestView { kind: self.kind, name: self.name@, command: self.command }
    }
}

/// The requests as values.
pub open spec fn requests_view(v: Seq<FeatureRequest>) -> Seq<RequestView> {
    v.map_values(|r: FeatureRequest| r@)
}

/// What to do with the `default-features` marker of an edited dependency.
#[derive(Clone, Copy, Debug, PartialEq, Eq, Structural)]
pub enum DefaultToggle {
    /// Leave the marker as it is.
    Keep,
    /// Make sure `default-features = false` is present.
    Disable,
    /// Make sure no `default-features` marker is present.
    Enable,
}

/// Everything one pass over a manifest is asked to do.
#[derive(Clone, Debug)]
pub struct EditPlan {
    /// The kind of dependency table the pass edits.
    pub kind: DependencyType,
    /// The feature edits, applied in this order.
    pub requests: Vec<FeatureRequest>,
    pub default_toggle: DefaultToggle,
}

/// Whether a request word is one of the words for the default features.
pub open spec fn is_default_word(s: Seq<char>) -> bool {
    s == "default"@ || s == "+default"@ || s == "^default"@
}

/// The feature requests that the words `args` stand for: each distinct word
/// once, in the order of its first occurrence, without the default-feature words.
pub open spec fn requests_of(args: Seq<Seq<char>>, kind: DependencyType) -> Seq<RequestView>
    decreases args.len(),
{
    if args.len() == 0 {
        Seq::empty()
    } else {
        let prev = args.drop_last();
        let a = args.last();
        let rs = requests_of(prev, kind);
        if is_default_word(a) || prev.contains(a) {
            rs
        } else {
            rs.push(RequestView { kind, name: parsed_feature(a).1, command: parsed_feature(a).0 })
        }
    }
}

/// The default-features toggle that the flags and the words `args` ask for;
/// disabling wins over enabling.
pub open spec fn toggle_of(args: Seq<Seq<char>>, disable: bool, enable: bool) -> DefaultToggle {
    if disable || args.contains("^default"@) {
        DefaultToggle::Disable
    } else if enable || args.contains("default"@) || args.contains("+default"@) {
        DefaultToggle::Enable
    } else {
        DefaultToggle::Keep
    }
}

/// The words as values.
pub open spec fn strs(v: Seq<String>) -> Seq<Seq<char>> {
    v.map_values(|s: String| s@)
}

/// Whether `s` is one of the words of `v`.
pub fn contains_str(v: &Vec<String>, s: &str) -> (r: bool)
    ensures
        r == strs(v@).contains(s@),
{
    let mut i: usize = 0;
    while i < v.len()
        invariant
            i <= v@.len(),
            forall|j: int| 0 <= j < i ==> (#[trigger] v@[j])@ != s@,
        decreases v@.len() - i,
    {
        if str_eq(v[i].as_str(), s) {
            assert(strs(v@)[i as int] == s@);
            return true;
        }
        i = i + 1;
    }
    assert forall|j: int| 0 <= j < strs(v@).len() implies strs(v@)[j] != s@ by {
        assert(strs(v@)[j] == v@[j]@);
    }
    false
}

impl EditPlan {
    /// The plan for the request words `args` given on the command line for
    /// tables of kind `kind`, with the two default-feature flags.
    pub fn new(args: &Vec<String>, kind: DependencyType, disable_default: bool, enable_default: bool) -> (r: EditPlan)
        ensures
            r.kind == kind,
            requests_view(r.requests@) == requests_of(strs(args@), kind),
            r.default_toggle == toggle_of(strs(args@), disable_default, enable_default),
    {
        let mut requests: Vec<FeatureRequest> = Vec::new();
        let mut seen: Vec<String> = Vec::new();
        let mut i: usize = 0;
        while i < args.len()
            invariant
                i <= args@.len(),
                strs(seen@) == strs(args@).subrange(0, i as int),
                requests_view(requests@) == requests_of(strs(args@).subrange(0, i as int), kind),
            decreases args@.len() - i,
        {
            let a = args[i].as_str();
            let sub = Ghost(strs(args@).subrange(0, i + 1));
            assert(sub@.drop_last() == strs(args@).subrange(0, i as int));
            assert(sub@.last() == a@);
            let known = contains_str(&seen, a);
            let dflt = str_eq(a, "default") || str_eq(a, "+default") || str_eq(a, "^default");
            if !dflt && !known {
                let (command, name) = parse_feature(a);
                requests.push(FeatureRequest { kind, name: name.to_owned(), command });
            }
            seen.push(args[i].clone());
            assert(strs(seen@) =~= sub@);
            i = i + 1;
        }
        assert(strs(args@).subrange(0, args@.len() as int) == strs(args@));
        let disable = disable_default || contains_str(args, "^default");
        let enable = enable_default || contains_str(args, "default") || contains_str(args, "+default");
        let default_toggle = if disable {
            DefaultToggle::Disable
        } else if enable {
            DefaultToggle::Enable
        } else {
            DefaultToggle::Keep
        };
        EditPlan { kind, requests, default_toggle }
    }

    /// Whether the plan asks for nothing at all, in which case the caller
    /// lists the package's features instead.
    pub fn is_listing(&self) -> (r: bool)
        ensures
            r == (self.requests@.len() == 0 && self.default_toggle == DefaultToggle::Keep),
    {
        self.requests.len() == 0 && self.default_toggle == DefaultToggle::Keep
    }
}

} // verus!
