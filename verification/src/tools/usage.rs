//! What the arguments of the card tool ask for.
use super::cards;
use super::cards::{CardArgsView, Mode};
use crate::text::strings;
use vstd::prelude::*;

verus! {

/// A name, with or without the way of showing it before it, asks for that card;
/// a token is taken as it is; any other option is refused.
pub proof fn arguments_ask_for_a_card(tool: Seq<char>, x: Seq<char>)
    ensures
        !cards::is_option(x) ==> {
            let plain = cards::read_from(seq![tool, x], 1, cards::no_args());
            let shown = cards::read_from(seq![tool, "--gui"@, x], 1, cards::no_args());
            let taken = cards::read_from(seq![tool, "--capture"@, x], 1, cards::no_args());
            &&& plain == Ok::<CardArgsView, Seq<char>>(
                CardArgsView {
                    mode: Mode::Capture,
                    fixture: Some(x),
                    token: None,
                    reset_token: false,
                },
            )
            &&& shown == Ok::<CardArgsView, Seq<char>>(
                CardArgsView {
                    mode: Mode::Gui,
                    fixture: Some(x),
                    token: None,
                    reset_token: false,
                },
            )
            &&& taken == plain
        },
        cards::is_option(x) && x != "--gui"@ && x != "--capture"@ && x != "--token"@ && x
            != "--reset-token"@ ==> cards::read_from(seq![tool, x], 1, cards::no_args()) == Err::<
            CardArgsView,
            Seq<char>,
        >(x),
        cards::read_from(seq![tool, "--token"@, x], 1, cards::no_args()) == Ok::<
            CardArgsView,
            Seq<char>,
        >(
            CardArgsView {
                mode: Mode::Capture,
                fixture: None,
                token: Some(x),
                reset_token: false,
            },
        ),
        cards::read_from(seq![tool, "--reset-token"@], 1, cards::no_args()) == Ok::<
            CardArgsView,
            Seq<char>,
        >(
            CardArgsView {
                mode: Mode::Capture,
                fixture: None,
                token: None,
                reset_token: true,
            },
        ),
{
    reveal_strlit("--gui");
    reveal_strlit("--capture");
    reveal_strlit("--token");
    reveal_strlit("--reset-token");
    reveal_with_fuel(cards::read_from, 4);
    assert("--gui"@.len() == 5 && "--capture"@.len() == 9 && "--token"@.len() == 7
        && "--reset-token"@.len() == 13);
    assert(cards::is_option("--gui"@) && cards::is_option("--capture"@) && cards::is_option(
        "--token"@,
    ) && cards::is_option("--reset-token"@));
    let a = seq![tool, x];
    assert(a.len() == 2 && a[1] == x);
    let b = seq![tool, "--gui"@, x];
    assert(b.len() == 3 && b[1] == "--gui"@ && b[2] == x);
    let c = seq![tool, "--capture"@, x];
    assert(c.len() == 3 && c[1] == "--capture"@ && c[2] == x);
    let d = seq![tool, "--token"@, x];
    assert(d.len() == 3 && d[1] == "--token"@ && d[2] == x);
    let e = seq![tool, "--reset-token"@];
    assert(e.len() == 2 && e[1] == "--reset-token"@);
}

/// A reset forgets every token. Else the given one is taken, or the stored one
/// without the white space round it, unless nothing is left of it.
pub proof fn tokens_are_given_before_stored(
    given: Option<Seq<char>>,
    stored: Option<Seq<char>>,
    t: Seq<char>,
)
    ensures
        cards::chosen_token(true, given, stored) is None,
        cards::chosen_token(false, Some(t), stored) == Some(t),
        strings::trimmed(t).len() > 0 ==> cards::chosen_token(false, None, Some(t)) == Some(
            strings::trimmed(t),
        ),
        strings::trimmed(t).len() == 0 ==> cards::chosen_token(false, None, Some(t)) is None,
        cards::chosen_token(false, None, None) is None,
{
}

} // verus!
