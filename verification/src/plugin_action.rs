//! Actions offered by plugins, named `plugin/action`.
use vstd::prelude::*;
use vstd::string::StringExecFns;
use crate::error::KyberError;
use crate::text::{chars_of, lemma_split_two, push_char, split_by_char, split_spec, views};

verus! {

/// An action of a plugin.
#[derive(Debug, PartialEq, Eq)]
pub struct PluginAction {
    plugin_name: String,
    action_name: String,
}

impl View for PluginAction {
    type V = (Seq<char>, Seq<char>);

    closed spec fn view(&self) -> (Seq<char>, Seq<char>) {
        (self.plugin_name@, self.action_name@)
    }
}

/// `char::is_whitespace`: the Unicode `White_Space` property.
pub open spec fn is_whitespace_char(c: char) -> bool {
    let u = c as u32;
    ||| 0x09 <= u <= 0x0d
    ||| u == 0x20
    ||| u == 0x85
    ||| u == 0xa0
    ||| u == 0x1680
    ||| 0x2000 <= u <= 0x200a
    ||| u == 0x2028
    ||| u == 0x2029
    ||| u == 0x202f
    ||| u == 0x205f
    ||| u == 0x3000
}

/// `char::is_control`: the Unicode general category `Cc`.
pub open spec fn is_control_char(c: char) -> bool {
    let u = c as u32;
    u <= 0x1f || (0x7f <= u <= 0x9f)
}

/// An action name is not empty and holds neither whitespace nor control characters.
pub open spec fn valid_action_name(a: Seq<char>) -> bool {
    &&& a.len() > 0
    &&& forall|i: int| 0 <= i < a.len() ==> !is_whitespace_char(#[trigger] a[i]) && !is_control_char(a[i])
}

/// `plugin/action`.
pub open spec fn plugin_action_text(a: (Seq<char>, Seq<char>)) -> Seq<char> {
    a.0 + seq!['/'] + a.1
}

fn is_whitespace(c: char) -> (r: bool)
    ensures
        r == is_whitespace_char(c),
{
    let u = c as u32;
    (0x09 <= u && u <= 0x0d) || u == 0x20 || u == 0x85 || u == 0xa0 || u == 0x1680 || (0x2000 <= u
        && u <= 0x200a) || u == 0x2028 || u == 0x2029 || u == 0x202f || u == 0x205f || u == 0x3000
}

fn is_control(c: char) -> (r: bool)
    ensures
        r == is_control_char(c),
{
    let u = c as u32;
    u <= 0x1f || (0x7f <= u && u <= 0x9f)
}

impl PluginAction {
    /// The action `action` of the plugin `plugin`, where the action's name is valid.
    pub fn parse(plugin: String, action: String) -> (r: Result<PluginAction, KyberError>)
        ensures
            r is Ok <==> valid_action_name(action@),
            r matches Ok(pa) ==> pa@ == (plugin@, action@),
            r matches Err(e) ==> e matches KyberError::InvalidAction(t) && t@ == action@,
    {
        let cs = chars_of(action.as_str());
        let mut ok = cs.len() > 0;
        let mut i: usize = 0;
        while i < cs.len()
            invariant
                i <= cs@.len(),
                cs@ == action@,
                ok == (cs@.len() > 0 && forall|j: int|
                    0 <= j < i ==> !is_whitespace_char(#[trigger] cs@[j]) && !is_control_char(
                        cs@[j],
                    )),
            decreases cs@.len() - i,
        {
            if is_whitespace(cs[i]) || is_control(cs[i]) {
                ok = false;
            }
            i += 1;
        }
        if !ok {
            return Err(KyberError::InvalidAction(action));
        }
        Ok(PluginAction { plugin_name: plugin, action_name: action })
    }

    /// `plugin/action`.
    pub fn to_string(&self) -> (r: String)
        ensures
            r@ == plugin_action_text(self@),
    {
        let mut s = self.plugin_name.clone();
        push_char(&mut s, '/');
        s.append(self.action_name.as_str());
        s
    }
}

impl std::str::FromStr for PluginAction {
    type Err = KyberError;

    /// Reads `plugin/action`: exactly one `/`. The action's name is not checked.
    fn from_str(s: &str) -> (r: Result<PluginAction, KyberError>)
        ensures
            r is Ok <==> split_spec(s@, '/').len() == 2,
            r matches Ok(pa) ==> pa@ == (split_spec(s@, '/')[0], split_spec(s@, '/')[1]),
            r matches Err(e) ==> e matches KyberError::InvalidPluginAction(t) && t@ == s@,
    {
        let mut parts = split_by_char(s, '/');
        assert(views(parts@).len() == parts@.len());
        if parts.len() != 2 {
            return Err(KyberError::InvalidPluginAction(s.to_owned()));
        }
        assert(views(parts@)[0] == parts@[0]@);
        assert(views(parts@)[1] == parts@[1]@);
        let action_name = parts.pop().unwrap();
        let plugin_name = parts.pop().unwrap();
        Ok(PluginAction { plugin_name, action_name })
    }
}

/// Reading back the `plugin/action` text of an action gives the action, where
/// neither name holds a `/`.
pub proof fn law_plugin_action_round_trip(a: (Seq<char>, Seq<char>))
    requires
        !a.0.contains('/'),
        !a.1.contains('/'),
    ensures
        split_spec(plugin_action_text(a), '/') == seq![a.0, a.1],
{
    lemma_split_two(a.0, a.1, '/');
}

} // verus!
