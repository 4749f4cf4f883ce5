//! Test cards: windows with a few lines of text that are drawn and captured.
use crate::text::strings;
use crate::text::strings::{same, trim};
use vstd::prelude::*;

verus! {

/// Whether a card is only shown, or captured too.
#[derive(Clone, Copy, Debug, PartialEq, Eq, Structural)]
pub enum Mode {
    Gui,
    Capture,
}

/// A card: its name and its lines of text.
#[derive(Debug)]
pub struct Fixture {
    pub name: String,
    pub lines: Vec<String>,
}

fn fixture(name: &str, lines: Vec<String>) -> (r: Fixture)
    ensures
        r.name@ == name@,
        r.lines == lines,
{
    Fixture { name: name.to_owned(), lines }
}

/// All cards.
pub fn fixtures() -> (r: Vec<Fixture>)
    ensures
        r@.len() == 5,
        r@[0].name@ == "ui_stable1"@,
        strings::views(r@[0].lines@) == seq!["Count: 100"@],
        r@[1].name@ == "ui_big1"@,
        strings::views(r@[1].lines@) == seq!["Hello OCR"@],
        r@[2].name@ == "ui_nat1"@,
        strings::views(r@[2].lines@) == seq!["Hello World"@, "RapidOCR test"@],
        r@[3].name@ == "ui_zh1"@,
        strings::views(r@[3].lines@) == seq!["你好世界"@, "RapidOCR 测试"@],
        r@[4].name@ == "ui_mix1"@,
        strings::views(r@[4].lines@) == seq![
            "订单编号：A1024"@,
            "总金额 ¥128.50"@,
            "Status: 已发货"@,
        ],
{
    let l0: Vec<String> = vec!["Count: 100".to_owned()];
    let l1: Vec<String> = vec!["Hello OCR".to_owned()];
    let l2: Vec<String> = vec!["Hello World".to_owned(), "RapidOCR test".to_owned()];
    let l3: Vec<String> = vec!["你好世界".to_owned(), "RapidOCR 测试".to_owned()];
    let l4: Vec<String> = vec![
        "订单编号：A1024".to_owned(),
        "总金额 ¥128.50".to_owned(),
        "Status: 已发货".to_owned(),
    ];
    proof {
        assert(strings::views(l0@) =~= seq!["Count: 100"@]);
        assert(strings::views(l1@) =~= seq!["Hello OCR"@]);
        assert(strings::views(l2@) =~= seq!["Hello World"@, "RapidOCR test"@]);
        assert(strings::views(l3@) =~= seq!["你好世界"@, "RapidOCR 测试"@]);
        assert(strings::views(l4@) =~= seq![
            "订单编号：A1024"@,
            "总金额 ¥128.50"@,
            "Status: 已发货"@,
        ]);
    }
    let mut out: Vec<Fixture> = Vec::new();
    out.push(fixture("ui_stable1", l0));
    out.push(fixture("ui_big1", l1));
    out.push(fixture("ui_nat1", l2));
    out.push(fixture("ui_zh1", l3));
    out.push(fixture("ui_mix1", l4));
    out
}

pub open spec fn opt_view(s: Option<String>) -> Option<Seq<char>> {
    match s {
        Some(x) => Some(x@),
        None => None,
    }
}

/// The token that lets a capture choose its window without asking: none if it is
/// to be forgotten, the given one, or the stored one without white space around
/// it where that leaves something.
pub open spec fn chosen_token(
    reset: bool,
    given: Option<Seq<char>>,
    stored: Option<Seq<char>>,
) -> Option<Seq<char>> {
    if reset {
        None
    } else {
        match given {
            Some(t) => Some(t),
            None => match stored {
                Some(s) => if strings::trimmed(s).len() > 0 {
                    Some(strings::trimmed(s))
                } else {
                    None
                },
                None => None,
            },
        }
    }
}

/// Chooses the token of a capture.
pub fn token_for_run(reset: bool, given: Option<String>, stored: Option<String>) -> (r: Option<
    String,
>)
    ensures
        opt_view(r) == chosen_token(reset, opt_view(given), opt_view(stored)),
{
    if reset {
        return None;
    }
    match given {
        Some(t) => Some(t),
        None => match stored {
            Some(s) => {
                let t = trim(s.as_str());
                if t.as_str().is_empty() {
                    None
                } else {
                    Some(t)
                }
            },
            None => None,
        },
    }
}

/// What the command line asks for.
#[derive(Debug)]
pub struct CardArgs {
    pub mode: Mode,
    pub fixture: Option<String>,
    pub token: Option<String>,
    pub reset_token: bool,
}

#[verifier::ext_equal]
pub ghost struct CardArgsView {
    pub mode: Mode,
    pub fixture: Option<Seq<char>>,
    pub token: Option<Seq<char>>,
    pub reset_token: bool,
}

impl View for CardArgs {
    type V = CardArgsView;

    open spec fn view(&self) -> CardArgsView {
        CardArgsView {
            mode: self.mode,
            fixture: opt_view(self.fixture),
            token: opt_view(self.token),
            reset_token: self.reset_token,
        }
    }
}

/// Whether an argument is an option.
pub open spec fn is_option(s: Seq<char>) -> bool {
    s.len() >= 2 && s[0] == '-' && s[1] == '-'
}

/// The arguments from position `i` on, after `acc`. An option for the mode takes
/// the next argument as the card; where that is an option too, it is passed
/// over.
pub open spec fn read_from(args: Seq<Seq<char>>, i: int, acc: CardArgsView) -> Result<
    CardArgsView,
    Seq<char>,
>
    decreases args.len() + 1 - i,
{
    if i >= args.len() {
        Ok(acc)
    } else if args[i] == "--gui"@ || args[i] == "--capture"@ {
        let mode = if args[i] == "--gui"@ {
            Mode::Gui
        } else {
            Mode::Capture
        };
        if i + 1 < args.len() && !is_option(args[i + 1]) {
            read_from(
                args,
                i + 2,
                CardArgsView { mode, fixture: Some(args[i + 1]), ..acc },
            )
        } else {
            read_from(args, i + 2, CardArgsView { mode, ..acc })
        }
    } else if args[i] == "--token"@ {
        if i + 1 < args.len() {
            read_from(args, i + 2, CardArgsView { token: Some(args[i + 1]), ..acc })
        } else {
            read_from(args, i + 2, acc)
        }
    } else if args[i] == "--reset-token"@ {
        read_from(args, i + 1, CardArgsView { reset_token: true, ..acc })
    } else if is_option(args[i]) {
        Err(args[i])
    } else {
        read_from(args, i + 1, CardArgsView { fixture: Some(args[i]), ..acc })
    }
}

pub open spec fn no_args() -> CardArgsView {
    CardArgsView { mode: Mode::Capture, fixture: None, token: None, reset_token: false }
}

pub open spec fn outcome(r: Result<CardArgs, String>) -> Result<CardArgsView, Seq<char>> {
    match r {
        Ok(a) => Ok(a@),
        Err(e) => Err(e@),
    }
}

fn starts_option(s: &str) -> (r: bool)
    ensures
        r == is_option(s@),
{
    let c = strings::chars_of(s);
    c.len() >= 2 && c[0] == '-' && c[1] == '-'
}

/// Reads the arguments after the name of the program. An unknown option is the
/// error.
pub fn parse_args(args: &[String]) -> (r: Result<CardArgs, String>)
    ensures
        outcome(r) == read_from(strings::views(args@), 1, no_args()),
{
    let ghost all = strings::views(args@);
    let ghost goal = read_from(all, 1, no_args());
    let mut acc = CardArgs { mode: Mode::Capture, fixture: None, token: None, reset_token: false };
    let n: usize = args.len();
    let mut i: usize = 1;
    proof {
        assert(acc@ =~= no_args());
    }
    while i < n
        invariant
            1 <= i,
            n == args@.len(),
            all == strings::views(args@),
            goal == read_from(all, i as int, acc@),
            goal == read_from(all, 1, no_args()),
        decreases n - i,
    {
        let a = args[i].as_str();
        proof {
            assert(all[i as int] == a@);
        }
        let gui = same(a, "--gui");
        if gui || same(a, "--capture") {
            let mode = if gui {
                Mode::Gui
            } else {
                Mode::Capture
            };
            let ghost before = acc@;
            acc.mode = mode;
            if n - i > 1 && !starts_option(args[i + 1].as_str()) {
                acc.fixture = Some(args[i + 1].clone());
                proof {
                    assert(all[i + 1] == args@[i + 1]@);
                    assert(acc@ =~= CardArgsView { mode, fixture: Some(all[i + 1]), ..before });
                }
            } else {
                proof {
                    assert(acc@ =~= CardArgsView { mode, ..before });
                }
            }
            if n - i <= 2 {
                proof {
                    assert(read_from(all, i + 2, acc@) == Ok::<CardArgsView, Seq<char>>(acc@));
                }
                return Ok(acc);
            }
            i = i + 2;
        } else if same(a, "--token") {
            let ghost before = acc@;
            if n - i > 1 {
                acc.token = Some(args[i + 1].clone());
                proof {
                    assert(all[i + 1] == args@[i + 1]@);
                    assert(acc@ =~= CardArgsView { token: Some(all[i + 1]), ..before });
                }
            }
            if n - i <= 2 {
                proof {
                    assert(read_from(all, i + 2, acc@) == Ok::<CardArgsView, Seq<char>>(acc@));
                }
                return Ok(acc);
            }
            i = i + 2;
        } else if same(a, "--reset-token") {
            let ghost before = acc@;
            acc.reset_token = true;
            proof {
                assert(acc@ =~= CardArgsView { reset_token: true, ..before });
            }
            i = i + 1;
        } else if starts_option(a) {
            return Err(args[i].clone());
        } else {
            let ghost before = acc@;
            acc.fixture = Some(args[i].clone());
            proof {
                assert(acc@ =~= CardArgsView { fixture: Some(all[i as int]), ..before });
            }
            i = i + 1;
        }
    }
    Ok(acc)
}

} // verus!
