//! What a configuration promises as a whole: a text reads line by line, so one
//! that is put behind another adds to it.

use vstd::prelude::*;

use crate::config::{
    config_of, first_or_all, integer_setting, is_comment, no_config, takes_value,
    with_line, with_lines, with_options, word_at, Complaint, ConfigValue, ServerValue,
};
use crate::text::{lines, lowered, words};

verus! {

/// Notes, each of them `n` lines further down.
pub open spec fn notes_below(notes: Seq<(nat, Seq<char>)>, n: nat) -> Seq<(nat, Seq<char>)> {
    notes.map_values(|note: (nat, Seq<char>)| ((note.0 + n) as nat, note.1))
}

/// A configuration of `n` lines with another one below it: lists go on, and a
/// setting that the lower one makes is the one that holds.
pub open spec fn above(a: ConfigValue, b: ConfigValue, n: nat) -> ConfigValue {
    ConfigValue {
        servers: a.servers + b.servers,
        makestep: if b.makestep is Some {
            b.makestep
        } else {
            a.makestep
        },
        max_slew_ppm: if b.max_slew_ppm is Some {
            b.max_slew_ppm
        } else {
            a.max_slew_ppm
        },
        allow: a.allow + b.allow,
        deny: a.deny + b.deny,
        ignored: a.ignored + notes_below(b.ignored, n),
    }
}

/// What a text says below one of `n` lines that says `a`.
pub open spec fn below(a: ConfigValue, n: nat, said: Result<ConfigValue, Complaint>) -> Result<
    ConfigValue,
    Complaint,
> {
    match said {
        Ok(b) => Ok(above(a, b, n)),
        Err(e) => Err(Complaint { line: e.line + n, ..e }),
    }
}

/// Whether a text ends where a line ends.
pub open spec fn ends_a_line(text: Seq<char>) -> bool {
    text.len() == 0 || text.last() == '\n'
}

proof fn lemma_options_below(
    line: nat,
    n: nat,
    directive: Seq<char>,
    opts: Seq<Seq<char>>,
    server: ServerValue,
    earlier: Seq<(nat, Seq<char>)>,
    ignored: Seq<(nat, Seq<char>)>,
)
    ensures
        with_options(line + n, directive, opts, server, earlier + notes_below(ignored, n))
            == match with_options(line, directive, opts, server, ignored) {
            Ok((s, noted)) => Ok::<(ServerValue, Seq<(nat, Seq<char>)>), Complaint>(
                (s, earlier + notes_below(noted, n)),
            ),
            Err(e) => Err(Complaint { line: e.line + n, ..e }),
        },
    decreases opts.len(),
{
    if opts.len() > 0 {
        let option = lowered(opts[0]);
        if option == "iburst"@ {
            lemma_options_below(
                line,
                n,
                directive,
                opts.skip(1),
                ServerValue { iburst: true, ..server },
                earlier,
                ignored,
            );
        } else if option == "minpoll"@ {
            if let Ok(v) = integer_setting(line, "minpoll"@, word_at(opts, 1), -128, 127) {
                lemma_options_below(
                    line,
                    n,
                    directive,
                    opts.skip(2),
                    ServerValue { min_poll: Some(v as i8), ..server },
                    earlier,
                    ignored,
                );
            }
        } else if option == "maxpoll"@ {
            if let Ok(v) = integer_setting(line, "maxpoll"@, word_at(opts, 1), -128, 127) {
                lemma_options_below(
                    line,
                    n,
                    directive,
                    opts.skip(2),
                    ServerValue { max_poll: Some(v as i8), ..server },
                    earlier,
                    ignored,
                );
            }
        } else {
            let text = directive + " option '"@ + option + "'"@;
            let noted = ignored.push((line, text));
            let skipped = if takes_value(option) && opts.len() > 1 {
                opts.skip(2)
            } else {
                opts.skip(1)
            };
            lemma_options_below(line, n, directive, skipped, server, earlier, noted);
            assert((earlier + notes_below(ignored, n)).push(((line + n) as nat, text)) =~= earlier
                + notes_below(noted, n));
        }
    }
}

proof fn lemma_line_below(a: ConfigValue, n: nat, b: ConfigValue, line: nat, text: Seq<char>)
    ensures
        with_line(above(a, b, n), line + n, text) == below(a, n, with_line(b, line, text)),
{
    let found = words(text);
    let both = above(a, b, n);
    if found.len() > 0 && !is_comment(found[0]) {
        let directive = lowered(found[0]);
        let args = found.skip(1);
        if directive == "server"@ || directive == "pool"@ {
            if args.len() > 0 {
                let plain = ServerValue {
                    host: args[0],
                    is_pool: directive == "pool"@,
                    iburst: false,
                    min_poll: None,
                    max_poll: None,
                };
                lemma_options_below(
                    line,
                    n,
                    directive,
                    args.skip(1),
                    plain,
                    a.ignored,
                    b.ignored,
                );
                if let Ok((server, _)) = with_options(
                    line,
                    directive,
                    args.skip(1),
                    plain,
                    b.ignored,
                ) {
                    assert(both.servers.push(server) =~= a.servers + b.servers.push(server));
                }
            }
        } else if directive == "makestep"@ {
        } else if directive == "maxslewrate"@ {
        } else if directive == "allow"@ {
            let entry = first_or_all(args);
            assert(both.allow.push(entry) =~= a.allow + b.allow.push(entry));
        } else if directive == "deny"@ {
            let entry = first_or_all(args);
            assert(both.deny.push(entry) =~= a.deny + b.deny.push(entry));
        } else {
            assert(both.ignored.push(((line + n) as nat, directive)) =~= a.ignored + notes_below(
                b.ignored.push((line, directive)),
                n,
            ));
        }
    }
}

proof fn lemma_lines_below(
    a: ConfigValue,
    n: nat,
    b: ConfigValue,
    first: nat,
    texts: Seq<Seq<char>>,
)
    ensures
        with_lines(above(a, b, n), first + n, texts) == below(a, n, with_lines(b, first, texts)),
    decreases texts.len(),
{
    if texts.len() > 0 {
        lemma_line_below(a, n, b, first, texts[0]);
        if let Ok(next) = with_line(b, first, texts[0]) {
            lemma_lines_below(a, n, next, first + 1, texts.skip(1));
        }
    }
}

proof fn lemma_lines_in_turn(
    config: ConfigValue,
    first: nat,
    a: Seq<Seq<char>>,
    b: Seq<Seq<char>>,
)
    requires
        with_lines(config, first, a) is Ok,
    ensures
        with_lines(config, first, a + b) == with_lines(
            with_lines(config, first, a)->Ok_0,
            first + a.len(),
            b,
        ),
    decreases a.len(),
{
    let whole = a + b;
    if a.len() == 0 {
        assert(whole =~= b);
    } else {
        assert(whole[0] == a[0]);
        assert(whole.skip(1) =~= a.skip(1) + b);
        let next = with_line(config, first, a[0])->Ok_0;
        lemma_lines_in_turn(next, first + 1, a.skip(1), b);
    }
}

/// Two texts, one behind the other, read as the first, and then as the second:
/// where the first is readable and ends where a line ends, the two together are
/// readable exactly where the second is, the lists go on, the later of two
/// settings holds, and every note and complaint of the second names the line
/// that it is about, counted from the top.
pub proof fn texts_read_one_after_the_other(a: Seq<char>, b: Seq<char>)
    requires
        ends_a_line(a),
        config_of(a) is Ok,
    ensures
        config_of(a + b) == below(config_of(a)->Ok_0, lines(a).len(), config_of(b)),
{
    let ca = config_of(a)->Ok_0;
    let n = lines(a).len();
    crate::text::lines_join(a, b);
    lemma_lines_in_turn(no_config(), 1, lines(a), lines(b));
    lemma_lines_below(ca, n, no_config(), 1, lines(b));
    let both = above(ca, no_config(), n);
    assert(both.servers =~= ca.servers);
    assert(both.allow =~= ca.allow);
    assert(both.deny =~= ca.deny);
    assert(both.ignored =~= ca.ignored);
}

} // verus!
