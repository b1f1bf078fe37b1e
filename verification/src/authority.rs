//! The helper that tags other clients' windows by rules on their application
//! names.
use std::collections::HashMap;
use vstd::prelude::*;
use vstd::string::*;

use crate::text::{
    chars_of, copied, find_char, lemma_place_of, place_of, str_eq, string_of,
};

verus! {

broadcast use vstd::std_specs::hash::group_hash_axioms;

/// What a rule makes of a window.
#[derive(Debug, Clone, Copy, PartialEq, Eq, Structural)]
pub enum Role {
    Sub,
    Alert,
}

/// A rule: windows of one application are tagged as belonging to a window of
/// another.
#[derive(Debug)]
pub struct Rule {
    pub role: Role,
    pub target_app_id: String,
    pub main_app_id: String,
}

/// What a rule stands for.
pub ghost struct RuleView {
    pub role: Role,
    pub target: Seq<char>,
    pub main: Seq<char>,
}

impl View for Rule {
    type V = RuleView;

    open spec fn view(&self) -> RuleView {
        RuleView { role: self.role, target: self.target_app_id@, main: self.main_app_id@ }
    }
}

/// The rule that `TARGET:MAIN` stands for, split at the first colon.
pub open spec fn rule_of(role: Role, spec_text: Seq<char>) -> Option<RuleView> {
    let at = place_of(spec_text, ':', 0);
    if at < spec_text.len() {
        Some(RuleView { role, target: spec_text.take(at), main: spec_text.skip(at + 1) })
    } else {
        None
    }
}

/// Reads `TARGET:MAIN`, a pair of application names.
pub fn parse_rule(role: Role, spec_text: &str) -> (r: Option<Rule>)
    ensures
        r is Some <==> rule_of(role, spec_text@) is Some,
        r matches Some(rule) ==> rule_of(role, spec_text@) == Some(rule@),
{
    let chars = chars_of(spec_text);
    let at: usize = find_char(&chars, ':', 0);
    if at >= chars.len() {
        return None;
    }
    let mut target: Vec<char> = Vec::new();
    for i in 0..at
        invariant
            at < chars@.len(),
            target@ == chars@.take(i as int),
    {
        target.push(chars[i]);
        assert(target@ =~= chars@.take(i + 1));
    }
    let mut main: Vec<char> = Vec::new();
    assert(main@ =~= chars@.subrange(at + 1, at + 1));
    for i in (at + 1)..chars.len()
        invariant
            at < chars@.len(),
            main@ == chars@.subrange(at + 1, i as int),
    {
        main.push(chars[i]);
        assert(main@ =~= chars@.subrange(at + 1, i + 1));
    }
    assert(main@ =~= chars@.skip(at + 1));
    Some(Rule { role, target_app_id: string_of(&target), main_app_id: string_of(&main) })
}

/// What is wrong with the arguments, and with which one.
#[derive(Debug, Clone, Copy, PartialEq, Eq, Structural)]
pub enum ArgError {
    /// Neither `--sub` nor `--alert`.
    Unrecognized(usize),
    /// The rule is missing.
    MissingRule(usize),
    /// The rule is not of the form `TARGET:MAIN`.
    BadRule(usize),
}

/// The role that an argument names.
pub open spec fn role_of(arg: Seq<char>) -> Option<Role> {
    if arg == "--sub"@ {
        Some(Role::Sub)
    } else if arg == "--alert"@ {
        Some(Role::Alert)
    } else {
        None
    }
}

fn role_for(arg: &str) -> (r: Option<Role>)
    ensures
        r == role_of(arg@),
{
    if str_eq(arg, "--sub") {
        Some(Role::Sub)
    } else if str_eq(arg, "--alert") {
        Some(Role::Alert)
    } else {
        None
    }
}

/// The first thing that is wrong with the arguments from `i` on.
pub open spec fn first_error(args: Seq<String>, i: int) -> Option<ArgError>
    decreases args.len() - i,
{
    if i < 0 || i >= args.len() {
        None
    } else if role_of(args[i]@) is None {
        Some(ArgError::Unrecognized(i as usize))
    } else if i + 1 >= args.len() {
        Some(ArgError::MissingRule(i as usize))
    } else if rule_of(role_of(args[i]@)->0, args[i + 1]@) is None {
        Some(ArgError::BadRule((i + 1) as usize))
    } else {
        first_error(args, i + 2)
    }
}

/// Rule `k` of some arguments that hold no error.
pub open spec fn arg_rule(args: Seq<String>, k: int) -> RuleView {
    rule_of(role_of(args[2 * k]@)->0, args[2 * k + 1]@)->0
}

/// Reads the arguments: any number of `--sub` or `--alert`, each followed by a
/// rule.
pub fn parse_args(args: &Vec<String>) -> (r: Result<Vec<Rule>, ArgError>)
    ensures
        match r {
            Err(e) => first_error(args@, 0) == Some(e),
            Ok(rules) => {
                &&& first_error(args@, 0) is None
                &&& rules@.len() * 2 == args@.len()
                &&& forall|k: int|
                    0 <= k < rules@.len() ==> (#[trigger] rules@[k])@ == arg_rule(args@, k)
            },
        },
{
    let mut rules: Vec<Rule> = Vec::new();
    let mut i: usize = 0;
    while i < args.len()
        invariant
            i <= args@.len(),
            rules@.len() * 2 == i,
            first_error(args@, i as int) == first_error(args@, 0),
            forall|k: int|
                0 <= k < rules@.len() ==> (#[trigger] rules@[k])@ == arg_rule(args@, k),
        decreases args@.len() - i,
    {
        let role = match role_for(args[i].as_str()) {
            None => {
                return Err(ArgError::Unrecognized(i));
            },
            Some(role) => role,
        };
        if args.len() - i < 2 {
            return Err(ArgError::MissingRule(i));
        }
        match parse_rule(role, args[i + 1].as_str()) {
            None => {
                return Err(ArgError::BadRule(i + 1));
            },
            Some(rule) => rules.push(rule),
        }
        i = i + 2;
    }
    Ok(rules)
}

/// What is known of a window: its name in the list of windows, its
/// application, whether it was announced as complete and is not gone, and
/// whether it was tagged.
#[derive(Debug)]
pub struct ToplevelInfo {
    pub identifier: Option<String>,
    pub app_id: String,
    pub listed: bool,
    pub tagged: bool,
}

/// What the knowledge of a window stands for.
pub ghost struct InfoView {
    pub identifier: Option<Seq<char>>,
    pub app_id: Seq<char>,
    pub listed: bool,
    pub tagged: bool,
}

impl View for ToplevelInfo {
    type V = InfoView;

    open spec fn view(&self) -> InfoView {
        InfoView {
            identifier: match self.identifier {
                Some(name) => Some(name@),
                None => None,
            },
            app_id: self.app_id@,
            listed: self.listed,
            tagged: self.tagged,
        }
    }
}

/// What is heard of a window.
#[derive(Debug)]
pub enum ToplevelEvent {
    AppId(String),
    Identifier(String),
    /// Everything that there is to say for now was said.
    Done,
    Closed,
}

/// A window to tag, and the window it belongs to, by their names.
#[derive(Debug)]
pub struct Tag {
    pub role: Role,
    pub identifier: String,
    pub main_identifier: String,
}

/// The helper: whether it is trusted, its rules, and the windows it knows, by
/// number.
pub struct Helper {
    pub authenticated: bool,
    pub rules: Vec<Rule>,
    pub toplevels: HashMap<u64, ToplevelInfo>,
}

/// What a helper stands for.
#[verifier::ext_equal]
pub ghost struct HelperView {
    pub authenticated: bool,
    pub rules: Seq<RuleView>,
    pub toplevels: Map<u64, InfoView>,
}

impl View for Helper {
    type V = HelperView;

    open spec fn view(&self) -> HelperView {
        HelperView {
            authenticated: self.authenticated,
            rules: self.rules@.map_values(|r: Rule| r@),
            toplevels: self.toplevels@.map_values(|i: ToplevelInfo| i@),
        }
    }
}

impl HelperView {
    /// What is known of a window; nothing at first.
    pub open spec fn info(self, id: u64) -> InfoView {
        if self.toplevels.contains_key(id) {
            self.toplevels[id]
        } else {
            InfoView { identifier: None, app_id: Seq::empty(), listed: false, tagged: false }
        }
    }

    /// The helper that knows this of a window.
    pub open spec fn knowing(self, id: u64, info: InfoView) -> HelperView {
        HelperView { toplevels: self.toplevels.insert(id, info), ..self }
    }

    /// Whether window `k` is listed, is one of an application's and has a name.
    pub open spec fn is_main(self, k: u64, app_id: Seq<char>) -> bool {
        &&& self.toplevels.contains_key(k)
        &&& self.toplevels[k].listed
        &&& self.toplevels[k].app_id == app_id
        &&& self.toplevels[k].identifier is Some
    }

    /// Whether rule `i` applies to windows of an application: it is about
    /// them, and its main window is there.
    pub open spec fn applies(self, app_id: Seq<char>, i: int) -> bool {
        &&& 0 <= i < self.rules.len()
        &&& self.rules[i].target == app_id
        &&& exists|k: u64| #[trigger] self.is_main(k, self.rules[i].main)
    }

    /// The first rule that applies, from `i` on; the number of rules if none
    /// does.
    pub open spec fn applying(self, app_id: Seq<char>, i: int) -> int
        decreases self.rules.len() - i,
    {
        if i < 0 || i >= self.rules.len() || self.applies(app_id, i) {
            i
        } else {
            self.applying(app_id, i + 1)
        }
    }

    /// The rule by which window `id` is to be tagged now, if any: the first
    /// that applies, unless the window was tagged before or has no name, or
    /// the helper is not trusted.
    pub open spec fn due(self, id: u64) -> Option<RuleView> {
        let info = self.info(id);
        let i = self.applying(info.app_id, 0);
        if !info.tagged && info.identifier is Some && self.authenticated && i < self.rules.len() {
            Some(self.rules[i])
        } else {
            None
        }
    }

    /// The helper once it heard something of window `id`, but for tagging.
    pub open spec fn heard(self, id: u64, event: ToplevelEvent) -> HelperView {
        let info = self.info(id);
        match event {
            ToplevelEvent::AppId(app_id) => self.knowing(id, InfoView { app_id: app_id@, ..info }),
            ToplevelEvent::Identifier(name) => self.knowing(
                id,
                InfoView { identifier: Some(name@), ..info },
            ),
            ToplevelEvent::Done => self.knowing(id, InfoView { listed: true, ..info }),
            ToplevelEvent::Closed => self.knowing(id, InfoView { listed: false, ..info }),
        }
    }

    /// The rule by which window `id` is tagged on something heard of it, if
    /// any: it takes the word that the window is complete.
    pub open spec fn tags(self, id: u64, event: ToplevelEvent) -> Option<RuleView> {
        if event is Done {
            self.heard(id, event).due(id)
        } else {
            None
        }
    }

    /// The helper once it dealt with something heard of window `id`.
    pub open spec fn after(self, id: u64, event: ToplevelEvent) -> HelperView {
        let heard = self.heard(id, event);
        if self.tags(id, event) is Some {
            heard.knowing(id, InfoView { tagged: true, ..heard.info(id) })
        } else {
            heard
        }
    }
}

/// A window is only ever tagged once, whatever is heard later of it or of
/// other windows.
pub proof fn law_tagged_once(helper: HelperView, window: u64, id: u64, event: ToplevelEvent)
    ensures
        helper.tags(window, event) is Some ==> helper.after(window, event).info(window).tagged,
        helper.info(window).tagged ==> helper.tags(window, event) is None,
        helper.info(window).tagged ==> helper.after(id, event).info(window).tagged,
{
}

/// Without trust, nothing is ever tagged.
pub proof fn law_untrusted_tags_nothing(helper: HelperView, id: u64, event: ToplevelEvent)
    requires
        !helper.authenticated,
    ensures
        helper.tags(id, event) is None,
        !helper.after(id, event).authenticated,
{
}

impl Helper {
    /// The name of a listed window of an application.
    fn main_identifier(&self, app_id: &str) -> (r: Option<String>)
        ensures
            r is Some <==> exists|k: u64| #[trigger] self@.is_main(k, app_id@),
            r matches Some(name) ==> exists|k: u64| #[trigger]
                self@.is_main(k, app_id@) && self@.toplevels[k].identifier == Some(name@),
    {
        for key in it: self.toplevels.keys()
            invariant
                it.seq().unref().to_set() == self.toplevels@.dom(),
                forall|j: int|
                    0 <= j < it.index() ==> !self@.is_main(*#[trigger] it.seq()[j], app_id@),
        {
            if let Some(info) = self.toplevels.get(key) {
                if info.listed && str_eq(info.app_id.as_str(), app_id) {
                    if let Some(name) = &info.identifier {
                        assert(self@.is_main(*key, app_id@));
                        return Some(copied(name.as_str()));
                    }
                }
            }
        }
        None
    }

    /// Takes down what is known of a window, so as to change it.
    fn taken(&mut self, id: u64) -> (r: ToplevelInfo)
        ensures
            r@ == old(self)@.info(id),
            final(self).rules == old(self).rules,
            final(self).authenticated == old(self).authenticated,
            final(self).toplevels@ == old(self).toplevels@.remove(id),
    {
        match self.toplevels.remove(&id) {
            Some(info) => info,
            None => {
                let none: Vec<char> = Vec::new();
                ToplevelInfo {
                    identifier: None,
                    app_id: string_of(&none),
                    listed: false,
                    tagged: false,
                }
            },
        }
    }

    /// Notes what is known of a window.
    fn note(&mut self, id: u64, info: ToplevelInfo)
        ensures
            final(self)@ == old(self)@.knowing(id, info@),
            final(self).rules == old(self).rules,
    {
        self.toplevels.insert(id, info);
        assert(self@.toplevels =~= old(self)@.toplevels.insert(id, info@));
    }

    /// Tags a window, if a rule says so. The main window may be any window of
    /// the rule's application.
    fn try_tag(&mut self, id: u64) -> (r: Option<Tag>)
        requires
            old(self)@.toplevels.contains_key(id),
        ensures
            match old(self)@.due(id) {
                None => r is None && final(self)@ == old(self)@,
                Some(rule) => {
                    &&& r is Some
                    &&& is_tag(r->0, old(self)@, id, rule)
                    &&& final(self)@ == old(self)@.knowing(
                        id,
                        InfoView { tagged: true, ..old(self)@.info(id) },
                    )
                },
            },
    {
        let info = match self.toplevels.get(&id) {
            Some(info) => info,
            None => {
                return None;
            },
        };
        if info.tagged || !self.authenticated {
            return None;
        }
        let identifier = match &info.identifier {
            Some(name) => copied(name.as_str()),
            None => {
                return None;
            },
        };
        let app_id = copied(info.app_id.as_str());
        let ghost before = self@;
        let count: usize = self.rules.len();
        for i in 0..count
            invariant
                count == self.rules@.len(),
                *self == *old(self),
                before == self@,
                before.toplevels.contains_key(id),
                before.info(id).identifier == Some(identifier@),
                before.info(id).app_id == app_id@,
                !before.info(id).tagged,
                before.authenticated,
                before.applying(app_id@, i as int) == before.applying(app_id@, 0),
        {
            assert(before.rules[i as int] == self.rules@[i as int]@);
            if str_eq(self.rules[i].target_app_id.as_str(), app_id.as_str()) {
                let found = self.main_identifier(self.rules[i].main_app_id.as_str());
                if let Some(main_identifier) = found {
                    let role = self.rules[i].role;
                    let ghost main = before.rules[i as int].main;
                    assert(main == self.rules@[i as int].main_app_id@);
                    assert(exists|k: u64| #[trigger] before.is_main(k, main));
                    assert(before.applies(app_id@, i as int));
                    assert(before.due(id) == Some(before.rules[i as int]));
                    assert(exists|k: u64| #[trigger]
                        before.is_main(k, before.rules[i as int].main)
                            && before.toplevels[k].identifier == Some(main_identifier@));
                    let mut info = self.taken(id);
                    info.tagged = true;
                    self.note(id, info);
                    assert(self@ =~= before.knowing(
                        id,
                        InfoView { tagged: true, ..before.info(id) },
                    ));
                    return Some(Tag { role, identifier, main_identifier });
                }
            }
        }
        None
    }

    /// Something is heard of a window. Once a window is complete, it is tagged
    /// by the first rule that applies; it is not looked at again when another
    /// window turns up.
    pub fn event(&mut self, id: u64, event: ToplevelEvent) -> (r: Option<Tag>)
        ensures
            final(self)@ == old(self)@.after(id, event),
            match old(self)@.tags(id, event) {
                None => r is None,
                Some(rule) => r is Some && is_tag(r->0, old(self)@.heard(id, event), id, rule),
            },
    {
        let mut info = self.taken(id);
        let ghost before = old(self)@;
        let (complete, info) = match event {
            ToplevelEvent::AppId(app_id) => {
                info.app_id = app_id;
                (false, info)
            },
            ToplevelEvent::Identifier(name) => {
                info.identifier = Some(name);
                (false, info)
            },
            ToplevelEvent::Done => {
                info.listed = true;
                (true, info)
            },
            ToplevelEvent::Closed => {
                info.listed = false;
                (false, info)
            },
        };
        self.note(id, info);
        assert(self@ =~= before.heard(id, event));
        if complete {
            self.try_tag(id)
        } else {
            None
        }
    }
}

/// Whether a tag is one that a rule gives to window `id`: under the window's
/// own name, with some window of the rule's main application.
pub open spec fn is_tag(tag: Tag, helper: HelperView, id: u64, rule: RuleView) -> bool {
    &&& tag.role == rule.role
    &&& helper.info(id).identifier == Some(tag.identifier@)
    &&& exists|k: u64| #[trigger]
        helper.is_main(k, rule.main) && helper.toplevels[k].identifier == Some(
            tag.main_identifier@,
        )
}

/// A rule is split at its first colon, and a text without a colon is no rule.
pub proof fn law_rule_is_split_at_its_colon(
    role: Role,
    target: Seq<char>,
    main: Seq<char>,
    text: Seq<char>,
)
    ensures
        !target.contains(':') ==> rule_of(role, target + seq![':'] + main) == Some(
            RuleView { role, target, main },
        ),
        rule_of(role, text) is None <==> !text.contains(':'),
{
    let whole = target + seq![':'] + main;
    lemma_place_of(whole, ':', 0);
    lemma_place_of(text, ':', 0);
    if !target.contains(':') {
        let at = place_of(whole, ':', 0);
        assert(whole[target.len() as int] == ':');
        if at < target.len() {
            assert(target.contains(whole[at]));
        }
        assert(whole.take(at) =~= target);
        assert(whole.skip(at + 1) =~= main);
    }
    let p = place_of(text, ':', 0);
    if p < text.len() {
        assert(text.contains(text[p]));
    }
}

/// Two arguments name a role, and no other does.
pub proof fn law_what_names_a_role(arg: Seq<char>)
    ensures
        ({
            let sub = seq!['-', '-', 's', 'u', 'b'];
            let alert = seq!['-', '-', 'a', 'l', 'e', 'r', 't'];
            &&& role_of(sub) == Some(Role::Sub)
            &&& role_of(alert) == Some(Role::Alert)
            &&& arg != sub && arg != alert ==> role_of(arg) is None
        }),
{
    reveal_strlit("--sub");
    reveal_strlit("--alert");
    let sub = seq!['-', '-', 's', 'u', 'b'];
    let alert = seq!['-', '-', 'a', 'l', 'e', 'r', 't'];
    assert("--sub"@ =~= sub);
    assert("--alert"@ =~= alert);
    assert(sub.len() == 5 && alert.len() == 7);
}

/// Whether an argument names a role and the next one is a rule.
pub open spec fn is_pair(args: Seq<String>, i: int) -> bool {
    role_of(args[i]@) is Some && i + 1 < args.len() && args[i + 1]@.contains(':')
}

/// The arguments come in pairs of a role and a rule. What is wrong is reported of
/// the first pair that is none: that its role is not known, else that its rule is
/// missing, else that its rule has no colon.
pub proof fn law_first_wrong_argument(args: Seq<String>, from: int)
    requires
        args.len() <= usize::MAX,
        0 <= from,
    ensures
        match first_error(args, from) {
            Some(ArgError::Unrecognized(i)) => {
                &&& from <= i < args.len() && (i - from) % 2 == 0
                &&& role_of(args[i as int]@) is None
                &&& forall|k: int|
                    from <= k < i && (k - from) % 2 == 0 ==> #[trigger] is_pair(args, k)
            },
            Some(ArgError::MissingRule(i)) => {
                &&& from <= i && i + 1 == args.len() && (i - from) % 2 == 0
                &&& role_of(args[i as int]@) is Some
                &&& forall|k: int|
                    from <= k < i && (k - from) % 2 == 0 ==> #[trigger] is_pair(args, k)
            },
            Some(ArgError::BadRule(i)) => {
                &&& from < i < args.len() && (i - from) % 2 == 1
                &&& role_of(args[i - 1]@) is Some
                &&& !args[i as int]@.contains(':')
                &&& forall|k: int|
                    from <= k < i - 1 && (k - from) % 2 == 0 ==> #[trigger] is_pair(args, k)
            },
            None => {
                &&& from < args.len() ==> (args.len() - from) % 2 == 0
                &&& forall|k: int|
                    from <= k < args.len() && (k - from) % 2 == 0 ==> #[trigger] is_pair(args, k)
            },
        },
    decreases args.len() - from,
{
    if from < args.len() {
        if role_of(args[from]@) is Some && from + 1 < args.len() {
            law_rule_is_split_at_its_colon(
                role_of(args[from]@)->0,
                Seq::empty(),
                Seq::empty(),
                args[from + 1]@,
            );
            if args[from + 1]@.contains(':') {
                assert(is_pair(args, from));
                law_first_wrong_argument(args, from + 2);
            }
        }
    }
}

/// What is heard of a window changes what is known of it and of no other: its
/// application, its name, or whether it is there. The rest of the helper stays.
pub proof fn law_what_is_heard_of_a_window(helper: HelperView, id: u64, other: u64, text: String)
    ensures
        forall|event: ToplevelEvent| #[trigger]
            helper.after(id, event).rules == helper.rules && helper.after(id, event).authenticated
                == helper.authenticated && (other != id ==> helper.after(id, event).info(other)
                == helper.info(other)),
        ({
            let info = helper.info(id);
            let named = helper.after(id, ToplevelEvent::Identifier(text)).info(id);
            let owned = helper.after(id, ToplevelEvent::AppId(text)).info(id);
            let done = helper.after(id, ToplevelEvent::Done).info(id);
            let closed = helper.after(id, ToplevelEvent::Closed).info(id);
            &&& named.identifier == Some(text@) && named.app_id == info.app_id && named.listed
                == info.listed && named.tagged == info.tagged
            &&& owned.app_id == text@ && owned.identifier == info.identifier && owned.listed
                == info.listed && owned.tagged == info.tagged
            &&& done.listed && done.identifier == info.identifier && done.app_id == info.app_id
            &&& !closed.listed && closed.identifier == info.identifier && closed.app_id
                == info.app_id && closed.tagged == info.tagged
        }),
{
}

proof fn lemma_applying(helper: HelperView, app_id: Seq<char>, i: int)
    requires
        0 <= i <= helper.rules.len(),
    ensures
        i <= helper.applying(app_id, i) <= helper.rules.len(),
        helper.applying(app_id, i) < helper.rules.len() ==> helper.applies(
            app_id,
            helper.applying(app_id, i),
        ),
        forall|k: int|
            i <= k < helper.applying(app_id, i) ==> !#[trigger] helper.applies(app_id, k),
    decreases helper.rules.len() - i,
{
    if i < helper.rules.len() && !helper.applies(app_id, i) {
        lemma_applying(helper, app_id, i + 1);
    }
}

/// A window is tagged when it is complete, by the first rule about its
/// application whose main application has a window that is there and has a name.
/// It has to have a name itself, and must not have been tagged before; and the
/// helper has to be trusted. Nothing else is needed.
pub proof fn law_first_rule_that_applies_tags(helper: HelperView, id: u64, event: ToplevelEvent)
    ensures
        ({
            let info = helper.info(id);
            let heard = helper.heard(id, event);
            let applies = |i: int|
                0 <= i < helper.rules.len() && helper.rules[i].target == info.app_id && exists|
                    k: u64,
                | #[trigger]
                    heard.toplevels.contains_key(k) && heard.toplevels[k].listed
                        && heard.toplevels[k].app_id == helper.rules[i].main
                        && heard.toplevels[k].identifier is Some;
            &&& helper.tags(id, event) matches Some(rule) ==> {
                &&& event is Done && helper.authenticated && !info.tagged && info.identifier is Some
                &&& exists|i: int| #[trigger]
                    applies(i) && helper.rules[i] == rule && forall|j: int|
                        0 <= j < i ==> !#[trigger] applies(j)
            }
            &&& event is Done && helper.authenticated && !info.tagged && info.identifier is Some
                && (exists|i: int| #[trigger] applies(i)) ==> helper.tags(id, event) is Some
        }),
{
    let info = helper.info(id);
    let heard = helper.heard(id, event);
    let applies = |i: int|
        0 <= i < helper.rules.len() && helper.rules[i].target == info.app_id && exists|k: u64|
            #[trigger]
            heard.toplevels.contains_key(k) && heard.toplevels[k].listed
                && heard.toplevels[k].app_id == helper.rules[i].main
                && heard.toplevels[k].identifier is Some;
    if event is Done {
        assert(heard.info(id).app_id == info.app_id);
        lemma_applying(heard, info.app_id, 0);
        let n = heard.applying(info.app_id, 0);
        assert forall|i: int| applies(i) <==> #[trigger] heard.applies(info.app_id, i) by {
            if applies(i) {
                let k = choose|k: u64| #[trigger]
                    heard.toplevels.contains_key(k) && heard.toplevels[k].listed
                        && heard.toplevels[k].app_id == helper.rules[i].main
                        && heard.toplevels[k].identifier is Some;
                assert(heard.is_main(k, heard.rules[i].main));
            }
            if heard.applies(info.app_id, i) {
                let k = choose|k: u64| #[trigger] heard.is_main(k, heard.rules[i].main);
                assert(heard.toplevels.contains_key(k));
            }
        }
        if n < heard.rules.len() {
            assert(applies(n));
        }
        assert forall|j: int| 0 <= j < n implies !#[trigger] applies(j) by {
            assert(!heard.applies(info.app_id, j));
        }
        if exists|i: int| #[trigger] applies(i) {
            let i = choose|i: int| #[trigger] applies(i);
            assert(heard.applies(info.app_id, i));
        }
    }
}

/// A tag has its rule's role, is given under the window's own name, and names a
/// window of the rule's main application that is there.
pub proof fn law_what_a_tag_says(tag: Tag, helper: HelperView, id: u64, rule: RuleView)
    requires
        is_tag(tag, helper, id, rule),
    ensures
        tag.role == rule.role,
        helper.info(id).identifier == Some(tag.identifier@),
        exists|k: u64| #[trigger]
            helper.toplevels.contains_key(k) && helper.toplevels[k].listed
                && helper.toplevels[k].app_id == rule.main && helper.toplevels[k].identifier
                == Some(tag.main_identifier@),
{
    let k = choose|k: u64| #[trigger]
        helper.is_main(k, rule.main) && helper.toplevels[k].identifier == Some(
            tag.main_identifier@,
        );
    assert(helper.toplevels.contains_key(k));
}

/// The rules come in the order of their pairs: each has the role that its first
/// argument names, and is split at the first colon of its second.
pub proof fn law_rules_come_in_order(
    args: Seq<String>,
    k: int,
    target: Seq<char>,
    main: Seq<char>,
)
    requires
        0 <= k,
        2 * k + 1 < args.len(),
        args[2 * k + 1]@ == target + seq![':'] + main,
        !target.contains(':'),
    ensures
        args[2 * k]@ == seq!['-', '-', 's', 'u', 'b'] ==> arg_rule(args, k) == (RuleView {
            role: Role::Sub,
            target,
            main,
        }),
        args[2 * k]@ == seq!['-', '-', 'a', 'l', 'e', 'r', 't'] ==> arg_rule(args, k) == (RuleView {
            role: Role::Alert,
            target,
            main,
        }),
{
    law_what_names_a_role(args[2 * k]@);
    law_rule_is_split_at_its_colon(Role::Sub, target, main, args[2 * k + 1]@);
    law_rule_is_split_at_its_colon(Role::Alert, target, main, args[2 * k + 1]@);
}

} // verus!
