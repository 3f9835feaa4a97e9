//! The one-line-per-request HTTP script: each line is `METHOD URL`,
//! with `GET` and `POST` the methods spoken, executed strictly top to
//! bottom, the response bodies concatenated with line feeds.
//!
//! A line whose method does not parse is fatal to the whole script, as
//! is an invalid URL or a connection failure while executing it.

use vstd::prelude::*;
use vstd::string::StringSliceAdditionalSpecFns;

use crate::text::copy_range;
use crate::text::is_blank;
use crate::text::split_into_lines;
use crate::text::split_lines;
use crate::text::trim_bytes;
use crate::text::trim_spec;
use crate::text::bytes_to_string;
use crate::web::Request;
use crate::web::RequestError;
use crate::web::RequestMethod;

verus! {

/// The bytes of `"GET "`, the prefix of a GET request line.
pub open spec fn get_prefix() -> Seq<u8> {
    seq![71u8, 69u8, 84u8, 32u8]
}

/// The bytes of `"POST "`, the prefix of a POST request line.
pub open spec fn post_prefix() -> Seq<u8> {
    seq![80u8, 79u8, 83u8, 84u8, 32u8]
}

/// What one request line means: the flag says whether it is a POST,
/// and the rest of the line is the URL; a line with neither method
/// prefix means nothing.
pub open spec fn parse_line_spec(l: Seq<u8>) -> Option<(bool, Seq<u8>)> {
    if get_prefix().is_prefix_of(l) {
        Some((false, l.skip(4)))
    } else if post_prefix().is_prefix_of(l) {
        Some((true, l.skip(5)))
    } else {
        None
    }
}

/// What a sequence of script lines means: blank lines are passed over,
/// every other line must be a request line, and the requests keep the
/// lines' order; one bad line makes the whole script mean nothing.
pub open spec fn parse_lines_spec(ls: Seq<Seq<u8>>) -> Option<Seq<(bool, Seq<u8>)>>
    decreases ls.len(),
{
    if ls.len() == 0 {
        Some(Seq::empty())
    } else if is_blank(ls.first()) {
        parse_lines_spec(ls.drop_first())
    } else {
        match parse_line_spec(ls.first()) {
            Option::None => Option::None,
            Option::Some(c) => match parse_lines_spec(ls.drop_first()) {
                Option::None => Option::None,
                Option::Some(cs) => Option::Some(seq![c] + cs),
            },
        }
    }
}

/// What a whole script means: its text trimmed at both ends, split
/// into lines, and the lines read as requests.
pub open spec fn script_commands_spec(s: Seq<u8>) -> Option<Seq<(bool, Seq<u8>)>> {
    parse_lines_spec(split_lines(trim_spec(s)))
}

/// The meaning of a script tail, behind commands already read: nothing
/// when the tail means nothing, else the commands followed by the
/// tail's requests.
pub open spec fn opt_prepend(pre: Seq<(bool, Seq<u8>)>, rest: Option<Seq<(bool, Seq<u8>)>>) -> Option<
    Seq<(bool, Seq<u8>)>,
> {
    match rest {
        Option::None => Option::None,
        Option::Some(cs) => Option::Some(pre + cs),
    }
}

/// One request of a script: its method and the URL bytes that follow.
pub struct ScriptCommand {
    pub method: RequestMethod,
    pub url: Vec<u8>,
}

impl View for ScriptCommand {
    type V = (bool, Seq<u8>);

    open spec fn view(&self) -> (bool, Seq<u8>) {
        (self.method is POST, self.url@)
    }
}

impl DeepView for ScriptCommand {
    type V = (bool, Seq<u8>);

    open spec fn deep_view(&self) -> (bool, Seq<u8>) {
        self.view()
    }
}

/// Why a script failed: a line with no valid method, or a request that
/// could not be configured or executed.
#[derive(Debug)]
pub enum ScriptError {
    InvalidMethod,
    Request(RequestError),
}

/// Reads a script into its requests, or fails on the first line whose
/// method does not parse.
pub fn parse_script(source: &Vec<u8>) -> (r: Result<Vec<ScriptCommand>, ScriptError>)
    ensures
        (r matches Ok(cs) && Some(cs.deep_view()) == script_commands_spec(source@)) || (r matches
            Err(ScriptError::InvalidMethod) && script_commands_spec(source@) is None),
{
    let trimmed = trim_bytes(source);
    let lines = split_into_lines(&trimmed);
    let ghost lv = lines.deep_view();
    let mut cmds: Vec<ScriptCommand> = Vec::new();
    let mut i: usize = 0;
    proof {
        assert(lv.skip(0) =~= lv);
        assert(cmds.deep_view() =~= Seq::<(bool, Seq<u8>)>::empty());
        match parse_lines_spec(lv) {
            Option::None => {},
            Option::Some(cs) => {
                assert(cmds.deep_view() + cs =~= cs);
            },
        }
    }
    while i < lines.len()
        invariant
            i <= lines@.len(),
            lv == lines.deep_view(),
            parse_lines_spec(lv) == script_commands_spec(source@),
            parse_lines_spec(lv) == opt_prepend(
                cmds.deep_view(),
                parse_lines_spec(lv.skip(i as int)),
            ),
        decreases lines@.len() - i,
    {
        let line = &lines[i];
        proof {
            assert(lv[i as int] =~= lines@[i as int]@);
            assert(lv.skip(i as int).first() == lv[i as int]);
            assert(lv.skip(i as int).drop_first() =~= lv.skip(i + 1));
        }
        if crate::text::line_is_blank(line) {
            i = i + 1;
            continue ;
        }
        let is_get = line.len() >= 4 && line[0] == 71 && line[1] == 69 && line[2] == 84
            && line[3] == 32;
        let is_post = !is_get && line.len() >= 5 && line[0] == 80 && line[1] == 79 && line[2]
            == 83 && line[3] == 84 && line[4] == 32;
        proof {
            let l = lv[i as int];
            if is_get {
                assert(get_prefix() =~= l.subrange(0, 4));
            } else {
                assert(!get_prefix().is_prefix_of(l)) by {
                    if get_prefix().is_prefix_of(l) {
                        assert(l[0] == 71 && l[1] == 69 && l[2] == 84 && l[3] == 32) by {
                            assert(get_prefix()[0] == l.subrange(0, 4)[0]);
                            assert(get_prefix()[1] == l.subrange(0, 4)[1]);
                            assert(get_prefix()[2] == l.subrange(0, 4)[2]);
                            assert(get_prefix()[3] == l.subrange(0, 4)[3]);
                        }
                    }
                }
                if is_post {
                    assert(post_prefix() =~= l.subrange(0, 5));
                } else {
                    assert(!post_prefix().is_prefix_of(l)) by {
                        if post_prefix().is_prefix_of(l) {
                            assert(l[0] == 80 && l[1] == 79 && l[2] == 83 && l[3] == 84 && l[4]
                                == 32) by {
                                assert(post_prefix()[0] == l.subrange(0, 5)[0]);
                                assert(post_prefix()[1] == l.subrange(0, 5)[1]);
                                assert(post_prefix()[2] == l.subrange(0, 5)[2]);
                                assert(post_prefix()[3] == l.subrange(0, 5)[3]);
                                assert(post_prefix()[4] == l.subrange(0, 5)[4]);
                            }
                        }
                    }
                }
            }
        }
        if is_get {
            let url = copy_range(line, 4, line.len());
            let ghost before = cmds.deep_view();
            let cmd = ScriptCommand { method: RequestMethod::GET, url };
            proof {
                assert(cmd.deep_view() == (false, lv[i as int].skip(4))) by {
                    assert(cmd.url@ =~= lv[i as int].skip(4));
                }
            }
            cmds.push(cmd);
            proof {
                assert(cmds.deep_view() =~~= before.push((false, lv[i as int].skip(4))));
                let c = (false, lv[i as int].skip(4));
                assert(parse_lines_spec(lv.skip(i as int)) == opt_prepend(
                    seq![c],
                    parse_lines_spec(lv.skip(i + 1)),
                ));
                match parse_lines_spec(lv.skip(i + 1)) {
                    Option::None => {},
                    Option::Some(cs) => {
                        assert(before + (seq![c] + cs) =~= (before.push(c)) + cs);
                    },
                }
            }
        } else if is_post {
            let url = copy_range(line, 5, line.len());
            let ghost before = cmds.deep_view();
            let cmd = ScriptCommand { method: RequestMethod::POST, url };
            proof {
                assert(cmd.deep_view() == (true, lv[i as int].skip(5))) by {
                    assert(cmd.url@ =~= lv[i as int].skip(5));
                }
            }
            cmds.push(cmd);
            proof {
                assert(cmds.deep_view() =~~= before.push((true, lv[i as int].skip(5))));
                let c = (true, lv[i as int].skip(5));
                assert(parse_lines_spec(lv.skip(i as int)) == opt_prepend(
                    seq![c],
                    parse_lines_spec(lv.skip(i + 1)),
                ));
                match parse_lines_spec(lv.skip(i + 1)) {
                    Option::None => {},
                    Option::Some(cs) => {
                        assert(before + (seq![c] + cs) =~= (before.push(c)) + cs);
                    },
                }
            }
        } else {
            proof {
                assert(parse_lines_spec(lv.skip(i as int)) is None);
            }
            return Err(ScriptError::InvalidMethod);
        }
        i = i + 1;
    }
    proof {
        assert(lv.skip(lv.len() as int) =~= Seq::<Seq<u8>>::empty());
        assert(parse_lines_spec(lv.skip(lv.len() as int)) == Option::Some(
            Seq::<(bool, Seq<u8>)>::empty(),
        ));
        assert(cmds.deep_view() + Seq::<(bool, Seq<u8>)>::empty() =~= cmds.deep_view());
    }
    Ok(cmds)
}

/// The response texts joined with single line feeds between them.
pub open spec fn join_texts_spec(ts: Seq<Seq<char>>) -> Seq<char>
    decreases ts.len(),
{
    if ts.len() == 0 {
        Seq::empty()
    } else if ts.len() == 1 {
        ts[0]
    } else {
        ts[0] + seq!['\n'] + join_texts_spec(ts.drop_first())
    }
}

/// Joining one more text appends a line feed and that text.
proof fn lemma_join_texts_snoc(ts: Seq<Seq<char>>, x: Seq<char>)
    ensures
        ts.len() == 0 ==> join_texts_spec(ts.push(x)) == x,
        ts.len() > 0 ==> join_texts_spec(ts.push(x)) == join_texts_spec(ts) + seq!['\n'] + x,
    decreases ts.len(),
{
    let p = ts.push(x);
    if ts.len() == 0 {
        assert(p[0] == x);
    } else if ts.len() == 1 {
        assert(p[0] == ts[0]);
        assert(p.drop_first() =~= seq![x]);
        assert(join_texts_spec(seq![x]) == x);
    } else {
        assert(p[0] == ts[0]);
        assert(p.drop_first() =~= ts.drop_first().push(x));
        lemma_join_texts_snoc(ts.drop_first(), x);
        assert(ts[0] + seq!['\n'] + (join_texts_spec(ts.drop_first()) + seq!['\n'] + x) =~= (
        ts[0] + seq!['\n'] + join_texts_spec(ts.drop_first())) + seq!['\n'] + x);
    }
}

/// Joins response texts with line feeds between them.
pub fn join_responses(texts: &Vec<String>) -> (r: String)
    ensures
        r@ == join_texts_spec(texts.deep_view()),
{
    let ghost tv = texts.deep_view();
    let mut r = String::new();
    let mut i: usize = 0;
    proof {
        assert(tv.take(0) =~= Seq::<Seq<char>>::empty());
    }
    while i < texts.len()
        invariant
            i <= texts@.len(),
            tv == texts.deep_view(),
            r@ == join_texts_spec(tv.take(i as int)),
        decreases texts@.len() - i,
    {
        proof {
            assert(tv.take(i + 1) =~= tv.take(i as int).push(tv[i as int]));
            lemma_join_texts_snoc(tv.take(i as int), tv[i as int]);
            reveal_strlit("\n");
        }
        if i > 0 {
            r.append("\n");
            proof {
                assert("\n"@ =~= seq!['\n']);
            }
        }
        r.append(texts[i].as_str());
        proof {
            assert(tv[i as int] =~= texts@[i as int]@);
            if i > 0 {
                assert(r@ =~= join_texts_spec(tv.take(i as int)) + seq!['\n'] + tv[i as int]);
            } else {
                assert(r@ =~= tv[0]);
            }
        }
        i = i + 1;
    }
    proof {
        assert(tv.take(tv.len() as int) =~= tv);
    }
    r
}

/// Runs a script: reads it into requests, executes them top to bottom,
/// and joins the response bodies with line feeds. A script of nothing
/// but whitespace yields the empty string. A line whose method does
/// not parse fails the whole script; so does a request whose URL does
/// not parse or whose connection fails, through the request's own
/// error.
pub fn run_script_to_string(source: &str) -> (r: Result<String, ScriptError>)
    ensures
        (r matches Err(ScriptError::InvalidMethod)) <==> script_commands_spec(
            source.spec_bytes(),
        ) is None,
        (script_commands_spec(source.spec_bytes()) matches Some(cs) && cs.len() == 0) ==> (r
            matches Ok(out) && out@ == Seq::<char>::empty()),
{
    let bytes = vstd::slice::slice_to_vec(source.as_bytes());
    let cmds = match parse_script(&bytes) {
        Ok(cs) => cs,
        Err(e) => {
            return Err(e);
        },
    };
    let ghost n_cmds = cmds.deep_view().len();
    let mut texts: Vec<String> = Vec::new();
    let mut i: usize = 0;
    while i < cmds.len()
        invariant
            i <= cmds@.len(),
            cmds@.len() == 0 ==> texts@.len() == 0,
            n_cmds == cmds.deep_view().len(),
            script_commands_spec(source.spec_bytes()) == Some(cmds.deep_view()),
        decreases cmds@.len() - i,
    {
        let url = bytes_to_string(&cmds[i].url);
        let method = cmds[i].method;
        let response = match Request::new().send(method, url.as_str()) {
            Ok(resp) => resp,
            Err(e) => {
                return Err(ScriptError::Request(e));
            },
        };
        texts.push(response.text());
        i = i + 1;
    }
    let out = join_responses(&texts);
    proof {
        if n_cmds == 0 {
            assert(texts.deep_view() =~= Seq::<Seq<char>>::empty());
        }
    }
    Ok(out)
}

} // verus!