//! Plugins: programs that offer refactoring actions, and how they are found.
use vstd::prelude::*;
use crate::plugin_action::{PluginAction, valid_action_name};
use crate::support::LineCol;
use crate::text::{chars_of, starts_with, starts_with_spec, string_from_chars};

verus! {

/// The actions, named `names`, of the plugin `plugin` that have valid names, in order.
pub open spec fn valid_actions(plugin: Seq<char>, names: Seq<Seq<char>>) -> Seq<(Seq<char>, Seq<char>)>
    decreases names.len(),
{
    if names.len() == 0 {
        Seq::empty()
    } else {
        let rest = valid_actions(plugin, names.drop_last());
        if valid_action_name(names.last()) {
            rest.push((plugin, names.last()))
        } else {
            rest
        }
    }
}

/// The actions kept from a list of names are exactly its valid names, in order, each
/// as an action of the plugin: every valid name is kept, whatever comes before it, and
/// no other name is.
pub proof fn law_valid_actions_filter(plugin: Seq<char>, names: Seq<Seq<char>>)
    ensures
        valid_actions(plugin, names) == names.filter(|n: Seq<char>| valid_action_name(n)).map_values(
            |n: Seq<char>| (plugin, n),
        ),
    decreases names.len(),
{
    reveal(Seq::filter);
    let pred = |n: Seq<char>| valid_action_name(n);
    let f = |n: Seq<char>| (plugin, n);
    if names.len() == 0 {
        assert(names.filter(pred) =~= Seq::<Seq<char>>::empty());
        assert(names.filter(pred).map_values(f) =~= Seq::<(Seq<char>, Seq<char>)>::empty());
    } else {
        law_valid_actions_filter(plugin, names.drop_last());
        let sub = names.drop_last().filter(pred);
        if valid_action_name(names.last()) {
            assert(names.filter(pred) == sub.push(names.last()));
            assert(sub.push(names.last()).map_values(f) =~= sub.map_values(f).push((plugin, names.last())));
        } else {
            assert(names.filter(pred) == sub);
        }
    }
}

pub open spec fn action_views(v: Seq<PluginAction>) -> Seq<(Seq<char>, Seq<char>)> {
    v.map_values(|a: PluginAction| a@)
}

/// The actions of the plugin `plugin` among `names`: those whose names are valid.
pub fn actions_from_names(plugin: &str, names: &Vec<String>) -> (r: Vec<PluginAction>)
    ensures
        action_views(r@) == valid_actions(plugin@, crate::text::views(names@)),
{
    let mut out: Vec<PluginAction> = Vec::new();
    let mut i: usize = 0;
    assert(crate::text::views(names@.take(0)) =~= Seq::<Seq<char>>::empty());
    while i < names.len()
        invariant
            i <= names@.len(),
            action_views(out@) == valid_actions(plugin@, crate::text::views(names@.take(i as int))),
        decreases names@.len() - i,
    {
        let ghost prev = out@;
        let ghost taken = crate::text::views(names@.take(i + 1));
        assert(taken.drop_last() =~= crate::text::views(names@.take(i as int)));
        assert(taken.last() == names@[i as int]@);
        match PluginAction::parse(plugin.to_owned(), names[i].clone()) {
            Ok(a) => {
                out.push(a);
                assert(action_views(out@) =~= action_views(prev).push(a@));
            },
            Err(_) => {},
        }
        i += 1;
    }
    assert(names@.take(names@.len() as int) =~= names@);
    out
}

/// A program that offers refactoring actions.
pub trait Plugin {
    /// The names of the actions it offers at `line_col` of `filename`.
    fn action_names(&self, filename: &str, line_col: &LineCol) -> Vec<String>;

    /// Its name.
    fn plugin_name(&self) -> String;

    /// The actions it offers at `line_col` of `filename`: of the names that
    /// `action_names` gives there, those that are valid, in order, as actions of the
    /// plugin named by `plugin_name`.
    fn actions(&self, filename: &str, line_col: &LineCol) -> (r: Vec<PluginAction>)
        ensures
            exists|names: Vec<String>, plugin: String|
                {
                    &&& call_ensures(Self::action_names, (self, filename, line_col), names)
                    &&& call_ensures(Self::plugin_name, (self,), plugin)
                    &&& action_views(r@) == valid_actions(plugin@, crate::text::views(names@))
                },
    {
        let names = self.action_names(filename, line_col);
        let plugin = self.plugin_name();
        actions_from_names(plugin.as_str(), &names)
    }
}

/// Whether an executable's name marks it as a plugin: it starts with `kyber-plugin-`.
pub fn is_plugin_exe(name: &str) -> (r: bool)
    ensures
        r == starts_with_spec(name@, "kyber-plugin-"@),
{
    starts_with(name, "kyber-plugin-")
}

/// The name under which a plugin's actions are shown: its executable's name without
/// the `kyber-plugin-` prefix (a name without that prefix is kept whole).
pub fn plugin_name_of_exe(exe: &str) -> (r: String)
    ensures
        r@ == (if starts_with_spec(exe@, "kyber-plugin-"@) {
            exe@.skip("kyber-plugin-"@.len() as int)
        } else {
            exe@
        }),
{
    let prefix = "kyber-plugin-";
    if !starts_with(exe, prefix) {
        return exe.to_owned();
    }
    let cs = chars_of(exe);
    let n = chars_of(prefix).len();
    let mut out: Vec<char> = Vec::new();
    let mut i: usize = n;
    while i < cs.len()
        invariant
            n <= i <= cs@.len(),
            n == prefix@.len(),
            out@ == cs@.subrange(n as int, i as int),
        decreases cs@.len() - i,
    {
        out.push(cs[i]);
        assert(cs@.subrange(n as int, i + 1) =~= cs@.subrange(n as int, i as int).push(cs@[i as int]));
        i += 1;
    }
    assert(cs@.subrange(n as int, cs@.len() as int) =~= exe@.skip(n as int));
    string_from_chars(out.as_slice())
}

} // verus!
