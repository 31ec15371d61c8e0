//! The decisions of the interactive loop: what each command line does to the net and what is
//! shown in answer.
use vstd::prelude::*;

use crate::analysis::semantic_model::SemanticModel;
use crate::grammar::lexer::{CharClass, skip_class};
use crate::repl::runtime::{
    PetriNet, SpecNet, SpecNetPlace, SpecNetTransition, arcs_in_range, checks_stay_in, convertible, enabled_in,
    fire_fits, fired, firing_stays_in, lemma_in_range_stays_in, net_in_range, net_of, state_text,
};
use crate::text::{char_is_whitespace, chars_of, is_whitespace_char, push_range, str_eq};

verus! {

/// What the loop does after a command: leave, print a text, or stop because firing would take
/// more tokens from a place than it holds or put more on a place than a `usize` holds.
pub enum ReplResponse {
    Exit,
    Print(String),
    Overflow,
}

/// The view of a response.
pub enum SpecResponse {
    Exit,
    Print(Seq<char>),
    Overflow,
}

impl View for ReplResponse {
    type V = SpecResponse;

    open spec fn view(&self) -> SpecResponse {
        match self {
            ReplResponse::Exit => SpecResponse::Exit,
            ReplResponse::Print(s) => SpecResponse::Print(s@),
            ReplResponse::Overflow => SpecResponse::Overflow,
        }
    }
}

/// The index just after the last character of `s[..j]` that is not white space (0 if none).
pub open spec fn trim_end_index(s: Seq<char>, j: int) -> int
    decreases j,
{
    if 0 < j <= s.len() && is_whitespace_char(s[j - 1]) {
        trim_end_index(s, j - 1)
    } else {
        j
    }
}

/// `s` without white space at either end, as `str::trim` gives it.
pub open spec fn trimmed(s: Seq<char>) -> Seq<char> {
    let a = skip_class(s, 0, CharClass::Whitespace);
    let b = trim_end_index(s, s.len() as int);
    if a < b {
        s.subrange(a, b)
    } else {
        Seq::empty()
    }
}

/// The prefix of a fire command.
pub open spec fn fire_prefix() -> Seq<char> {
    seq!['f', 'i', 'r', 'e', ' ']
}

/// True when `s` starts with `fire `.
pub open spec fn starts_with_fire(s: Seq<char>) -> bool {
    s.len() >= 5 && s.take(5) == fire_prefix()
}

/// `s` without any number of leading `fire `, as `str::trim_start_matches` gives it.
pub open spec fn strip_fire(s: Seq<char>) -> Seq<char>
    decreases s.len(),
{
    if starts_with_fire(s) {
        strip_fire(s.skip(5))
    } else {
        s
    }
}

/// The position of the first transition named `name`.
pub open spec fn first_named(ts: Seq<SpecNetTransition>, name: Seq<char>) -> Option<int>
    decreases ts.len(),
{
    if ts.len() == 0 {
        None
    } else if ts[0].name == name {
        Some(0)
    } else {
        match first_named(ts.drop_first(), name) {
            Some(j) => Some(j + 1),
            None => None,
        }
    }
}

/// The first transition named `name` is a transition of that name, and none before it has it.
pub proof fn lemma_first_named(ts: Seq<SpecNetTransition>, name: Seq<char>)
    ensures
        match first_named(ts, name) {
            Some(j) => 0 <= j < ts.len() && ts[j].name == name && forall|m: int|
                0 <= m < j ==> (#[trigger] ts[m]).name != name,
            None => forall|m: int| 0 <= m < ts.len() ==> (#[trigger] ts[m]).name != name,
        },
    decreases ts.len(),
{
    if ts.len() > 0 {
        let rest = ts.drop_first();
        lemma_first_named(rest, name);
        if ts[0].name != name {
            match first_named(rest, name) {
                Some(j) => {
                    assert forall|m: int| 0 <= m < j + 1 implies (#[trigger] ts[m]).name != name by {
                        if m > 0 {
                            assert(ts[m] == rest[m - 1]);
                        }
                    }
                    assert(ts[j + 1] == rest[j]);
                },
                None => {
                    assert forall|m: int| 0 <= m < ts.len() implies (#[trigger] ts[m]).name != name by {
                        if m > 0 {
                            assert(ts[m] == rest[m - 1]);
                        }
                    }
                },
            }
        }
    }
}

/// Names joined by `->`.
pub open spec fn join_arrows(names: Seq<Seq<char>>) -> Seq<char>
    decreases names.len(),
{
    if names.len() == 0 {
        Seq::empty()
    } else if names.len() == 1 {
        names[0]
    } else {
        join_arrows(names.drop_last()) + "->"@ + names.last()
    }
}

/// The help text.
pub open spec fn help_text() -> Seq<char> {
    ".quit: Exit the repl and program\n.help: Prints help\ntrace: Prints trace of fired transitions\nfire <transition name>: fires a transition\nshow: Shows the state of the net\n"@
}

/// What one command line does: the net and the trace of fired transitions afterwards, and the
/// answer. `.quit` leaves; `.help` shows the help; `show` shows the state; `trace` shows the
/// names of the transitions fired so far; `fire <name>` fires the first transition of that name
/// and records its name if it is enabled, says so if it is not, and does nothing for an unknown
/// name; anything else is an unknown command.
pub open spec fn repl_step(net: SpecNet, trace: Seq<Seq<char>>, line: Seq<char>) -> (
    SpecNet,
    Seq<Seq<char>>,
    SpecResponse,
) {
    let cmd = trimmed(line);
    if cmd == ".quit"@ {
        (net, trace, SpecResponse::Exit)
    } else if cmd == ".help"@ {
        (net, trace, SpecResponse::Print(help_text()))
    } else if cmd == "show"@ {
        (net, trace, SpecResponse::Print(state_text(net)))
    } else if cmd == "trace"@ {
        (net, trace, SpecResponse::Print(join_arrows(trace) + "\n"@))
    } else if starts_with_fire(cmd) {
        match first_named(net.transitions, trimmed(strip_fire(cmd))) {
            None => (net, trace, SpecResponse::Print(Seq::empty())),
            Some(j) => {
                let tr = net.transitions[j];
                if enabled_in(net.places, tr) {
                    if fire_fits(net.places, tr) {
                        (
                            SpecNet { places: fired(net.places, tr), ..net },
                            trace.push(tr.name),
                            SpecResponse::Print("Fired transition "@ + tr.name + "\n"@),
                        )
                    } else {
                        (net, trace, SpecResponse::Overflow)
                    }
                } else {
                    (
                        net,
                        trace,
                        SpecResponse::Print("Transition "@ + tr.name + " is not enabled\n"@),
                    )
                }
            },
        }
    } else {
        (
            net,
            trace,
            SpecResponse::Print("Unknown command. Type .help to get a detailed overview.\n"@),
        )
    }
}

/// True when carrying out `line` looks only at places of the net: `show` checks every
/// transition, and `fire` fires the transition it names.
pub open spec fn command_stays_in(net: SpecNet, line: Seq<char>) -> bool {
    let cmd = trimmed(line);
    if cmd == ".quit"@ || cmd == ".help"@ || cmd == "trace"@ {
        true
    } else if cmd == "show"@ {
        checks_stay_in(net)
    } else if starts_with_fire(cmd) {
        match first_named(net.transitions, trimmed(strip_fire(cmd))) {
            Some(j) => firing_stays_in(net.places, net.transitions[j]),
            None => true,
        }
    } else {
        true
    }
}

/// The command words differ from each other, and none of them starts with `fire `.
pub proof fn lemma_commands_differ()
    ensures
        ".quit"@ != ".help"@ && ".quit"@ != "show"@ && ".quit"@ != "trace"@,
        ".help"@ != "show"@ && ".help"@ != "trace"@ && "show"@ != "trace"@,
        !starts_with_fire(".quit"@) && !starts_with_fire(".help"@),
        !starts_with_fire("show"@) && !starts_with_fire("trace"@),
        ".quit"@[0] != 'f' && ".help"@[0] != 'f' && "trace"@[0] != 'f' && "show"@.len() < 5,
{
    reveal_strlit(".quit");
    reveal_strlit(".help");
    reveal_strlit("show");
    reveal_strlit("trace");
    assert(".quit"@[1] != ".help"@[1]);
    assert(".quit"@[0] != "trace"@[0]);
    assert(".help"@[0] != "trace"@[0]);
    assert(".quit"@.len() != "show"@.len());
    assert(".help"@.len() != "show"@.len());
    assert("show"@.len() != "trace"@.len());
}

/// The bounds of `cs[a..b]` without white space at either end.
fn trim_range(cs: &Vec<char>, a: usize, b: usize) -> (r: (usize, usize))
    requires
        a <= b <= cs.len(),
    ensures
        a <= r.0 <= r.1 <= b,
        cs@.subrange(r.0 as int, r.1 as int) == trimmed(cs@.subrange(a as int, b as int)),
{
    let ghost s = cs@.subrange(a as int, b as int);
    let mut i = a;
    while i < b && char_is_whitespace(cs[i])
        invariant
            a <= i <= b <= cs.len(),
            s == cs@.subrange(a as int, b as int),
            skip_class(s, i - a, CharClass::Whitespace) == skip_class(s, 0, CharClass::Whitespace),
            forall|m: int| a <= m < i ==> is_whitespace_char(#[trigger] cs@[m]),
        decreases b - i,
    {
        assert(s[i - a] == cs@[i as int]);
        i = i + 1;
    }
    assert(skip_class(s, i - a, CharClass::Whitespace) == i - a) by {
        if i < b {
            assert(s[i - a] == cs@[i as int]);
        }
    }
    let mut j = b;
    while j > i && char_is_whitespace(cs[j - 1])
        invariant
            a <= i <= j <= b <= cs.len(),
            s == cs@.subrange(a as int, b as int),
            trim_end_index(s, j - a) == trim_end_index(s, s.len() as int),
            forall|m: int| a <= m < i ==> is_whitespace_char(#[trigger] cs@[m]),
        decreases j,
    {
        assert(s[j - a - 1] == cs@[j - 1]);
        j = j - 1;
    }
    if j > i {
        assert(trim_end_index(s, j - a) == j - a) by {
            assert(s[j - a - 1] == cs@[j - 1]);
        }
        assert(cs@.subrange(i as int, j as int) =~= s.subrange(i - a, j - a));
    } else {
        assert(trim_end_index(s, s.len() as int) == 0) by {
            assert forall|m: int| 0 <= m < j - a implies is_whitespace_char(#[trigger] s[m]) by {
                assert(s[m] == cs@[a + m]);
            }
            lemma_trim_end_all_white(s, j - a);
        }
        assert(cs@.subrange(i as int, i as int) =~= Seq::<char>::empty());
        j = i;
    }
    (i, j)
}

/// When `s[..j]` is all white space, trimming the end from `j` removes all of it.
proof fn lemma_trim_end_all_white(s: Seq<char>, j: int)
    requires
        0 <= j <= s.len(),
        forall|m: int| 0 <= m < j ==> is_whitespace_char(#[trigger] s[m]),
    ensures
        trim_end_index(s, j) == 0,
    decreases j,
{
    if 0 < j {
        lemma_trim_end_all_white(s, j - 1);
    }
}

/// The position of the first transition named `name`.
fn position_named(transitions: &Vec<crate::repl::runtime::Transition>, name: &str) -> (r: Option<
    usize,
>)
    ensures
        r == match first_named(
            transitions@.map_values(|t: crate::repl::runtime::Transition| t@),
            name@,
        ) {
            Some(j) => Some(j as usize),
            None => None::<usize>,
        },
{
    let ghost ts = transitions@.map_values(|t: crate::repl::runtime::Transition| t@);
    proof {
        lemma_first_named(ts, name@);
    }
    let mut j: usize = 0;
    while j < transitions.len()
        invariant
            j <= transitions.len(),
            ts == transitions@.map_values(|t: crate::repl::runtime::Transition| t@),
            forall|m: int| 0 <= m < j ==> (#[trigger] ts[m]).name != name@,
            match first_named(ts, name@) {
                Some(f) => 0 <= f < ts.len() && ts[f].name == name@ && forall|m: int|
                    0 <= m < f ==> (#[trigger] ts[m]).name != name@,
                None => forall|m: int| 0 <= m < ts.len() ==> (#[trigger] ts[m]).name != name@,
            },
        decreases transitions.len() - j,
    {
        assert(ts[j as int] == transitions@[j as int]@);
        if str_eq(transitions[j].name(), name) {
            return Some(j);
        }
        j = j + 1;
    }
    None
}

/// True when `cs[a..b]` starts with `fire `.
fn fire_at(cs: &Vec<char>, a: usize, b: usize) -> (r: bool)
    requires
        a <= b <= cs.len(),
    ensures
        r == starts_with_fire(cs@.subrange(a as int, b as int)),
{
    if b - a < 5 {
        return false;
    }
    let r = cs[a] == 'f' && cs[a + 1] == 'i' && cs[a + 2] == 'r' && cs[a + 3] == 'e' && cs[a + 4]
        == ' ';
    assert(r == (cs@.subrange(a as int, b as int).take(5) =~= fire_prefix()));
    r
}

/// The command of a line: the line without white space at either end, and for a `fire`
/// command the name it gives.
fn read_command(line: &str) -> (r: (String, Option<String>))
    ensures
        r.0@ == trimmed(line@),
        match r.1 {
            Some(name) => starts_with_fire(trimmed(line@)) && name@ == trimmed(
                strip_fire(trimmed(line@)),
            ),
            None => !starts_with_fire(trimmed(line@)),
        },
{
    let cs = chars_of(line);
    let (a, b) = trim_range(&cs, 0, cs.len());
    assert(cs@.subrange(0, cs.len() as int) =~= line@);
    let mut command = String::new();
    push_range(&mut command, &cs, a, b);
    if !fire_at(&cs, a, b) {
        return (command, None);
    }
    let mut s = a;
    while fire_at(&cs, s, b)
        invariant
            a <= s <= b <= cs.len(),
            strip_fire(cs@.subrange(s as int, b as int)) == strip_fire(
                cs@.subrange(a as int, b as int),
            ),
        decreases b - s,
    {
        assert(cs@.subrange(s as int, b as int).skip(5) =~= cs@.subrange(s + 5, b as int));
        s = s + 5;
    }
    let (n0, n1) = trim_range(&cs, s, b);
    let mut name = String::new();
    push_range(&mut name, &cs, n0, n1);
    (command, Some(name))
}

/// The interactive loop's state: the net being simulated and the names of the transitions
/// fired so far.
pub struct Repl {
    net: PetriNet,
    trace: Vec<String>,
}

impl Repl {
    /// The net being simulated.
    pub closed spec fn net_view(&self) -> SpecNet {
        self.net@
    }

    /// The names recorded by `fire` commands so far.
    pub closed spec fn trace_view(&self) -> Seq<Seq<char>> {
        self.trace@.map_values(|s: String| s@)
    }

    /// A loop over the net of `model`, with nothing fired yet.
    pub fn new(model: &SemanticModel) -> (r: Repl)
        requires
            convertible(
                model.symbol_view(),
                model.place_view(),
                model.transition_view(),
                model.arc_view(),
            ),
        ensures
            r.net_view() == net_of(
                model.symbol_view(),
                model.place_view(),
                model.transition_view(),
                model.arc_view(),
            ),
            r.trace_view() == Seq::<Seq<char>>::empty(),
    {
        let r = Repl { net: PetriNet::from_semantic_model(model), trace: Vec::new() };
        assert(r.trace_view() =~= Seq::<Seq<char>>::empty());
        r
    }

    /// True when carrying out `line` looks only at places of the net, as `handle` needs.
    pub fn can_handle(&self, line: &str) -> (r: bool)
        ensures
            r == command_stays_in(self.net_view(), line@),
    {
        let (command, fire_name) = read_command(line);
        if str_eq(command.as_str(), ".quit") || str_eq(command.as_str(), ".help") || str_eq(
            command.as_str(),
            "trace",
        ) {
            return true;
        }
        proof {
            lemma_commands_differ();
        }
        if str_eq(command.as_str(), "show") {
            return self.net.can_check_all();
        }
        match fire_name {
            Some(name) => {
                let ghost cmd = trimmed(line@);
                assert(cmd.take(5)[0] == 'f');
                assert(cmd[0] == 'f');
                assert(cmd != ".quit"@ && cmd != ".help"@ && cmd != "trace"@ && cmd != "show"@);
                let ghost ts = self.net_view().transitions;
                let transitions = self.net.transitions();
                assert(transitions@.map_values(|t: crate::repl::runtime::Transition| t@) == ts);
                match position_named(transitions, name.as_str()) {
                    Some(j) => {
                        proof {
                            lemma_first_named(ts, name@);
                        }
                        assert(first_named(ts, name@) is Some);
                        let ghost f = first_named(ts, name@)->Some_0;
                        assert(0 <= f < ts.len());
                        assert(ts.len() == transitions.len());
                        assert(first_named(ts, name@) == Some(j as int));
                        self.net.can_fire(j)
                    },
                    None => true,
                }
            },
            None => true,
        }
    }

    /// Carries out one command line and gives the answer.
    pub fn handle(&mut self, line: &str) -> (r: ReplResponse)
        requires
            command_stays_in(old(self).net_view(), line@),
        ensures
            (final(self).net_view(), final(self).trace_view(), r@) == repl_step(
                old(self).net_view(),
                old(self).trace_view(),
                line@,
            ),
    {
        let (command, fire_name) = read_command(line);
        if str_eq(command.as_str(), ".quit") {
            return ReplResponse::Exit;
        }
        if str_eq(command.as_str(), ".help") {
            return ReplResponse::Print(
                ".quit: Exit the repl and program\n.help: Prints help\ntrace: Prints trace of fired transitions\nfire <transition name>: fires a transition\nshow: Shows the state of the net\n".to_owned(),
            );
        }
        if str_eq(command.as_str(), "show") {
            proof {
                lemma_commands_differ();
            }
            return ReplResponse::Print(self.net.show_state());
        }
        if str_eq(command.as_str(), "trace") {
            let mut out = self.trace_text();
            out.append("\n");
            return ReplResponse::Print(out);
        }
        match fire_name {
            Some(name) => self.fire_named(name.as_str()),
            None => ReplResponse::Print(
                "Unknown command. Type .help to get a detailed overview.\n".to_owned(),
            ),
        }
    }

    /// The trace, as names joined by `->`.
    fn trace_text(&self) -> (r: String)
        ensures
            r@ == join_arrows(self.trace_view()),
    {
        let ghost names = self.trace_view();
        let mut out = String::new();
        let mut k: usize = 0;
        assert(names.take(0) =~= Seq::<Seq<char>>::empty());
        while k < self.trace.len()
            invariant
                k <= self.trace.len(),
                names == self.trace_view(),
                out@ == join_arrows(names.take(k as int)),
            decreases self.trace.len() - k,
        {
            assert(names[k as int] == self.trace@[k as int]@);
            assert(names.take(k + 1).drop_last() =~= names.take(k as int));
            let ghost before = out@;
            if k > 0 {
                out.append("->");
            } else {
                assert(names.take(1)[0] == names[0]);
            }
            out.append(self.trace[k].as_str());
            assert(k > 0 ==> out@ =~= before + "->"@ + names[k as int]);
            assert(k == 0 ==> out@ =~= before + names[k as int]);
            k = k + 1;
        }
        assert(names.take(self.trace.len() as int) =~= names);
        out
    }

    /// The `fire` command for the transition named `name`.
    fn fire_named(&mut self, name: &str) -> (r: ReplResponse)
        requires
            match first_named(old(self).net_view().transitions, name@) {
                Some(j) => firing_stays_in(
                    old(self).net_view().places,
                    old(self).net_view().transitions[j],
                ),
                None => true,
            },
        ensures
            (final(self).net_view(), final(self).trace_view(), r@) == match first_named(
                old(self).net_view().transitions,
                name@,
            ) {
                None => (old(self).net_view(), old(self).trace_view(), SpecResponse::Print(Seq::empty())),
                Some(j) => {
                    let net = old(self).net_view();
                    let trace = old(self).trace_view();
                    let tr = net.transitions[j];
                    if enabled_in(net.places, tr) {
                        if fire_fits(net.places, tr) {
                            (
                                SpecNet { places: fired(net.places, tr), ..net },
                                trace.push(tr.name),
                                SpecResponse::Print("Fired transition "@ + tr.name + "\n"@),
                            )
                        } else {
                            (net, trace, SpecResponse::Overflow)
                        }
                    } else {
                        (
                            net,
                            trace,
                            SpecResponse::Print("Transition "@ + tr.name + " is not enabled\n"@),
                        )
                    }
                },
            },
    {
        let ghost ts = self.net_view().transitions;
        let ghost ts_places = self.net_view().places;
        proof {
            lemma_first_named(ts, name@);
        }
        let transitions = self.net.transitions();
        let j = match position_named(transitions, name) {
            Some(j) => j,
            None => {
                return ReplResponse::Print(String::new());
            },
        };
        assert(transitions@.map_values(|t: crate::repl::runtime::Transition| t@) == ts);
        assert(first_named(ts, name@) is Some);
        let ghost f = first_named(ts, name@)->Some_0;
        assert(0 <= f < ts.len());
        assert(ts.len() == transitions.len());
        assert((f as usize) as int == f);
        assert(first_named(ts, name@) == Some(j as int));
        let transition_name = transitions[j].name().to_owned();
        assert(transition_name@ == ts[j as int].name);
        if self.net.is_enabled(j) && !self.net.fire_fits(j) {
            assert(final(self).net_view() == old(self).net_view());
            return ReplResponse::Overflow;
        }
        let ghost before = self.trace_view();
        let fired_now = self.net.fire(j);
        if fired_now {
            self.trace.push(transition_name.clone());
            assert(self.trace_view() =~= before.push(ts[j as int].name));
        }
        assert(self.net_view().transitions == ts);
        let mut out = if fired_now {
            "Fired transition ".to_owned()
        } else {
            "Transition ".to_owned()
        };
        out.append(transition_name.as_str());
        if fired_now {
            out.append("\n");
        } else {
            out.append(" is not enabled\n");
            assert(self.net_view().places =~= old(self).net_view().places);
            assert(self.net_view() =~= old(self).net_view());
        }
        assert(fired_now ==> self.net_view() == (SpecNet { places: fired(ts_places, ts[j as int]), ..old(self).net_view() }));
        ReplResponse::Print(out)
    }
}

/// A command line that is not a `fire` command leaves the net and the trace as they are.
pub proof fn law_only_fire_changes_state(net: SpecNet, trace: Seq<Seq<char>>, line: Seq<char>)
    requires
        !starts_with_fire(trimmed(line)),
    ensures
        repl_step(net, trace, line).0 == net,
        repl_step(net, trace, line).1 == trace,
{
}

/// A command line either leaves both the trace and the net as they are, or fires an enabled
/// transition and appends its name to the trace; so the trace lists the transitions fired so
/// far, in the order they fired.
pub proof fn law_trace_appends_fired_names(net: SpecNet, trace: Seq<Seq<char>>, line: Seq<char>)
    ensures
        ({
            let (after_net, after, _) = repl_step(net, trace, line);
            ||| after == trace && after_net == net
            ||| exists|j: int|
                0 <= j < net.transitions.len() && enabled_in(
                    net.places,
                    #[trigger] net.transitions[j],
                ) && first_named(net.transitions, net.transitions[j].name) == Some(j) && after
                    == trace.push(net.transitions[j].name) && after_net.places == fired(
                    net.places,
                    net.transitions[j],
                )
        }),
{
    let cmd = trimmed(line);
    if starts_with_fire(cmd) && cmd != ".quit"@ && cmd != ".help"@ && cmd != "show"@ && cmd
        != "trace"@ {
        let name = trimmed(strip_fire(cmd));
        lemma_first_named(net.transitions, name);
        if let Some(j) = first_named(net.transitions, name) {
            let tr = net.transitions[j];
            if enabled_in(net.places, tr) && fire_fits(net.places, tr) {
                assert(enabled_in(net.places, net.transitions[j]));
            }
        }
    }
}

/// No command changes the transitions of the net, its index, or which places it has: only the
/// number of tokens on places changes.
pub proof fn law_commands_keep_structure(net: SpecNet, trace: Seq<Seq<char>>, line: Seq<char>)
    ensures
        repl_step(net, trace, line).0.transitions == net.transitions,
        repl_step(net, trace, line).0.index == net.index,
        repl_step(net, trace, line).0.places.len() == net.places.len(),
        forall|p: int|
            0 <= p < net.places.len() ==> (#[trigger] repl_step(net, trace, line).0.places[p]).name
                == net.places[p].name,
{
}

/// Firing a transition that is not enabled changes nothing but the trace, and firing an enabled
/// one moves tokens exactly as the firing rule says.
pub proof fn law_fire_follows_rule(net: SpecNet, trace: Seq<Seq<char>>, line: Seq<char>, j: int)
    requires
        starts_with_fire(trimmed(line)),
        first_named(net.transitions, trimmed(strip_fire(trimmed(line)))) == Some(j),
    ensures
        !enabled_in(net.places, net.transitions[j]) ==> repl_step(net, trace, line).0 == net,
        enabled_in(net.places, net.transitions[j]) && fire_fits(net.places, net.transitions[j])
            ==> repl_step(net, trace, line).0.places == fired(net.places, net.transitions[j]),
{
    let cmd = trimmed(line);
    assert(cmd.len() >= 5);
    assert(cmd != ".quit"@ && cmd != ".help"@ && cmd != "show"@ && cmd != "trace"@) by {
        reveal_strlit(".quit");
        reveal_strlit(".help");
        reveal_strlit("show");
        reveal_strlit("trace");
        assert(cmd[0] == 'f');
    }
}

/// A net whose transitions only name places of the net can carry out any command line, and
/// stays so afterwards; so such a net can run any sequence of commands.
pub proof fn law_in_range_net_takes_any_command(net: SpecNet, trace: Seq<Seq<char>>, line: Seq<char>)
    requires
        net_in_range(net),
    ensures
        command_stays_in(net, line),
        net_in_range(repl_step(net, trace, line).0),
{
    lemma_in_range_stays_in(net);
    let cmd = trimmed(line);
    if let Some(j) = first_named(net.transitions, trimmed(strip_fire(cmd))) {
        lemma_first_named(net.transitions, trimmed(strip_fire(cmd)));
        assert(firing_stays_in(net.places, net.transitions[j]));
    }
    let after = repl_step(net, trace, line).0;
    assert(after.transitions == net.transitions && after.places.len() == net.places.len());
}

/// The state after the loop reads `lines`: the net, the trace, and whether it has stopped
/// (at `.quit`, or when firing would overflow a place); once it has stopped, later lines are not
/// read.
pub open spec fn repl_run(net: SpecNet, trace: Seq<Seq<char>>, lines: Seq<Seq<char>>) -> (
    SpecNet,
    Seq<Seq<char>>,
    bool,
)
    decreases lines.len(),
{
    if lines.len() == 0 {
        (net, trace, false)
    } else {
        let (n, t, stopped) = repl_run(net, trace, lines.drop_last());
        if stopped {
            (n, t, true)
        } else {
            let (n2, t2, r) = repl_step(n, t, lines.last());
            (n2, t2, r is Exit || r is Overflow)
        }
    }
}

/// The marking after firing, in order, the first transition of each of `names`.
pub open spec fn fire_names(
    places: Seq<SpecNetPlace>,
    ts: Seq<SpecNetTransition>,
    names: Seq<Seq<char>>,
) -> Seq<SpecNetPlace>
    decreases names.len(),
{
    if names.len() == 0 {
        places
    } else {
        let before = fire_names(places, ts, names.drop_last());
        match first_named(ts, names.last()) {
            Some(j) => fired(before, ts[j]),
            None => before,
        }
    }
}

/// True when each of `names` names a transition that is enabled in the marking that firing the
/// ones before it leaves.
pub open spec fn fires_in_turn(
    places: Seq<SpecNetPlace>,
    ts: Seq<SpecNetTransition>,
    names: Seq<Seq<char>>,
) -> bool
    decreases names.len(),
{
    names.len() == 0 || {
        &&& fires_in_turn(places, ts, names.drop_last())
        &&& match first_named(ts, names.last()) {
            Some(j) => enabled_in(fire_names(places, ts, names.drop_last()), ts[j]),
            None => false,
        }
    }
}

/// Over a whole run of command lines, the trace grows by the names of the transitions that
/// fired, in the order they fired; each of them was enabled when it fired; the marking at the
/// end is what firing them in that order gives; and the transitions and the index of the net
/// never change. Lines other than a `fire` of an enabled transition leave the marking alone.
pub proof fn law_run_fires_the_traced_transitions(
    net: SpecNet,
    trace: Seq<Seq<char>>,
    lines: Seq<Seq<char>>,
)
    ensures
        ({
            let (after_net, after, _) = repl_run(net, trace, lines);
            let fired_names = after.skip(trace.len() as int);
            &&& trace.len() <= after.len()
            &&& after.take(trace.len() as int) == trace
            &&& after_net.transitions == net.transitions
            &&& after_net.index == net.index
            &&& fires_in_turn(net.places, net.transitions, fired_names)
            &&& after_net.places == fire_names(net.places, net.transitions, fired_names)
        }),
    decreases lines.len(),
{
    if lines.len() == 0 {
        assert(trace.take(trace.len() as int) =~= trace);
        assert(trace.skip(trace.len() as int) =~= Seq::<Seq<char>>::empty());
    } else {
        law_run_fires_the_traced_transitions(net, trace, lines.drop_last());
        let (n, t, stopped) = repl_run(net, trace, lines.drop_last());
        if !stopped {
            let line = lines.last();
            law_trace_appends_fired_names(n, t, line);
            law_commands_keep_structure(n, t, line);
            let (n2, t2, _) = repl_step(n, t, line);
            let ts = net.transitions;
            if !(t2 == t && n2 == n) {
                let j = choose|j: int|
                    0 <= j < n.transitions.len() && enabled_in(n.places, #[trigger] n.transitions[j])
                        && first_named(n.transitions, n.transitions[j].name) == Some(j) && t2
                        == t.push(n.transitions[j].name) && n2.places == fired(
                        n.places,
                        n.transitions[j],
                    );
                assert(t2.skip(trace.len() as int) =~= t.skip(trace.len() as int).push(ts[j].name));
                assert(t2.skip(trace.len() as int).drop_last() =~= t.skip(trace.len() as int));
                assert(t2.take(trace.len() as int) =~= t.take(trace.len() as int));
            }
        }
    }
}

} // verus!
