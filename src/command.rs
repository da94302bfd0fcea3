//! Interpretation of decoded requests: an ordered list of handlers, each of
//! which recognises one command shape.
use crate::resp::lemma_tokens_view;
use crate::resp::decode;
use crate::resp::tokenize;
use crate::resp::RespToken;
use crate::resp::TokenView;
use crate::store::opt_text;
use crate::store::Store;
use vstd::prelude::*;

verus! {

broadcast use vstd::string::group_string_axioms;

/// The upper-case form of a text, as Unicode case mapping gives it.
pub uninterp spec fn upper_of(s: Seq<char>) -> Seq<char>;

/// Relies on str::to_uppercase: the upper-case form depends on the
/// characters alone.
#[verifier::external_body]
fn to_upper(s: &str) -> (r: String)
    ensures
        r@ == upper_of(s@),
{
    s.to_uppercase()
}

fn text(s: &str) -> (r: String)
    ensures
        r@ == s@,
{
    s.to_owned()
}

/// One request and the store it runs against, for one dispatch.
pub struct CommandContext {
    pub token: RespToken,
    pub store: Store,
}

/// The handlers, each recognising one command.
pub enum CommandHandler {
    PingHandler,
    EchoHandler,
    GetHandler,
    SetHandler,
}

/// A recognised request.
pub enum Command {
    Ping,
    Echo(Seq<char>),
    Get(Seq<char>),
    SetKey(Seq<char>, Seq<char>),
}

/// The command word of a handler, in upper case.
pub open spec fn word(h: CommandHandler) -> Seq<char> {
    match h {
        CommandHandler::PingHandler => seq!['P', 'I', 'N', 'G'],
        CommandHandler::EchoHandler => seq!['E', 'C', 'H', 'O'],
        CommandHandler::GetHandler => seq!['G', 'E', 'T'],
        CommandHandler::SetHandler => seq!['S', 'E', 'T'],
    }
}

/// A PING: the word as a simple or bulk string, or an array of one element
/// that is itself a PING.
pub open spec fn is_ping_token(t: TokenView) -> bool
    decreases t,
{
    match t {
        TokenView::Simple(s) => upper_of(s) == word(CommandHandler::PingHandler),
        TokenView::Bulk(s) => upper_of(s) == word(CommandHandler::PingHandler),
        TokenView::Arr(es) => es.len() == 1 && is_ping_token(es[0]),
        _ => false,
    }
}

/// An array of `n` bulk strings whose first one folds to `w`.
pub open spec fn bulk_call(t: TokenView, w: Seq<char>, n: nat) -> bool {
    match t {
        TokenView::Arr(es) => es.len() == n && (forall|k: int|
            0 <= k < n ==> #[trigger] es[k] is Bulk) && upper_of(es[0]->Bulk_0) == w,
        _ => false,
    }
}

/// The argument at `k` of an array of bulk strings.
pub open spec fn arg(t: TokenView, k: int) -> Seq<char> {
    t->Arr_0[k]->Bulk_0
}

/// What a handler recognises in a request.
pub open spec fn recognized(h: CommandHandler, t: TokenView) -> Option<Command> {
    match h {
        CommandHandler::PingHandler => if is_ping_token(t) {
            Some(Command::Ping)
        } else {
            None
        },
        CommandHandler::EchoHandler => if bulk_call(t, word(h), 2) {
            Some(Command::Echo(arg(t, 1)))
        } else {
            None
        },
        CommandHandler::GetHandler => if bulk_call(t, word(h), 2) {
            Some(Command::Get(arg(t, 1)))
        } else {
            None
        },
        CommandHandler::SetHandler => if bulk_call(t, word(h), 3) {
            Some(Command::SetKey(arg(t, 1), arg(t, 2)))
        } else {
            None
        },
    }
}

/// The handlers in the order in which they are tried.
pub open spec fn handler_order() -> Seq<CommandHandler> {
    seq![CommandHandler::PingHandler, CommandHandler::EchoHandler, CommandHandler::GetHandler, CommandHandler::SetHandler]
}

/// What the first of `hs` that recognises `t` recognises.
pub open spec fn first_recognized(hs: Seq<CommandHandler>, t: TokenView) -> Option<Command>
    decreases hs.len(),
{
    if hs.len() == 0 {
        None
    } else {
        match recognized(hs[0], t) {
            Some(c) => Some(c),
            None => first_recognized(hs.drop_first(), t),
        }
    }
}

/// The command that a request resolves to, if any.
pub open spec fn command_of(t: TokenView) -> Option<Command> {
    first_recognized(handler_order(), t)
}

/// Whether `r` is a reply that `c` may get. A GET's reply depends on the
/// shared store: a bulk string, or the null bulk string when the key is
/// absent or expired.
pub open spec fn answers(c: Command, r: TokenView) -> bool {
    match c {
        Command::Ping => r == TokenView::Bulk(seq!['P', 'O', 'N', 'G']),
        Command::Echo(a) => r == TokenView::Bulk(a),
        Command::Get(_) => r is Bulk || r is NullBulk,
        Command::SetKey(_, _) => r == TokenView::Simple(seq!['O', 'K']),
    }
}

/// The reply to a request that no handler recognises.
pub open spec fn unknown_command() -> TokenView {
    TokenView::Error(
        seq!['u', 'n', 'k', 'n', 'o', 'w', 'n', ' ', 'c', 'o', 'm', 'm', 'a', 'n', 'd'],
    )
}

/// The reply to a GET, from what the store returned for the key: the value
/// as a bulk string, or the null bulk string when there is none.
pub fn get_reply(found: Option<String>) -> (r: RespToken)
    ensures
        r@ == match opt_text(found) {
            Some(v) => TokenView::Bulk(v),
            None => TokenView::NullBulk,
        },
{
    match found {
        Some(v) => RespToken::BulkString(v),
        None => RespToken::NullBulkString,
    }
}

fn is_ping(token: &RespToken) -> (r: bool)
    ensures
        r == is_ping_token(token@),
    decreases token@,
{
    proof {
        reveal_strlit("PING");
    }
    match token {
        RespToken::SimpleString(s) => CommandHandler::PingHandler.named_by(&to_upper(s.as_str())),
        RespToken::BulkString(s) => CommandHandler::PingHandler.named_by(&to_upper(s.as_str())),
        RespToken::Array(es) => {
            proof {
                lemma_tokens_view(es@);
            }
            if es.len() == 1 {
                proof {
                    assert(decreases_to!(token@ => token@->Arr_0));
                    assert(decreases_to!(token@->Arr_0 => token@->Arr_0[0]));
                }
                is_ping(&es[0])
            } else {
                false
            }
        },
        _ => false,
    }
}

impl CommandHandler {
    /// Whether a word, already folded to upper case, is this handler's
    /// command word.
    pub fn named_by(&self, folded: &String) -> (r: bool)
        ensures
            r == (folded@ == word(*self)),
    {
        let w = match self {
            CommandHandler::PingHandler => text("PING"),
            CommandHandler::EchoHandler => text("ECHO"),
            CommandHandler::GetHandler => text("GET"),
            CommandHandler::SetHandler => text("SET"),
        };
        proof {
            reveal_strlit("PING");
            reveal_strlit("ECHO");
            reveal_strlit("GET");
            reveal_strlit("SET");
            assert(w@ =~= word(*self));
        }
        *folded == w
    }

    /// Whether `token` is an array of `n` bulk strings whose first one names
    /// this handler's command.
    fn is_call(&self, token: &RespToken, n: usize) -> (r: bool)
        requires
            n >= 1,
        ensures
            r == bulk_call(token@, word(*self), n as nat),
    {
        match token {
            RespToken::Array(es) => {
                proof {
                    lemma_tokens_view(es@);
                }
                if es.len() != n {
                    return false;
                }
                let mut k: usize = 0;
                while k < n
                    invariant
                        k <= n == es.len(),
                        all_bulk_upto(es@, k as int),
                        token@ == TokenView::Arr(crate::resp::tokens_view(es@)),
                    decreases n - k,
                {
                    match &es[k] {
                        RespToken::BulkString(_) => {},
                        _ => {
                            proof {
                                lemma_tokens_view(es@);
                                assert(!(crate::resp::tokens_view(es@)[k as int] is Bulk));
                            }
                            return false;
                        },
                    }
                    k = k + 1;
                }
                proof {
                    assert forall|j: int| 0 <= j < n implies #[trigger] crate::resp::tokens_view(
                        es@,
                    )[j] is Bulk by {
                        assert(es@[j] is BulkString);
                    }
                }
                match &es[0] {
                    RespToken::BulkString(c) => self.named_by(&to_upper(c.as_str())),
                    _ => false,
                }
            },
            _ => false,
        }
    }

    /// Serves the request if this handler recognises it.
    pub fn try_handle(&self, context: &CommandContext) -> (r: Option<RespToken>)
        ensures
            match recognized(*self, context.token@) {
                None => r is None,
                Some(c) => r matches Some(resp) && answers(c, resp@),
            },
    {
        proof {
            reveal_strlit("PONG");
            reveal_strlit("OK");
        }
        let token = &context.token;
        match self {
            CommandHandler::PingHandler => {
                if is_ping(token) {
                    let pong = text("PONG");
                    proof {
                        assert(pong@ =~= seq!['P', 'O', 'N', 'G']);
                    }
                    Some(RespToken::BulkString(pong))
                } else {
                    None
                }
            },
            _ => {
                let n: usize = match self {
                    CommandHandler::SetHandler => 3,
                    _ => 2,
                };
                if !self.is_call(token, n) {
                    return None;
                }
                match token {
                    RespToken::Array(es) => {
                        proof {
                            lemma_tokens_view(es@);
                        }
                        match (&es[1], self) {
                            (RespToken::BulkString(a), CommandHandler::EchoHandler) => Some(
                                RespToken::BulkString(a.clone()),
                            ),
                            (RespToken::BulkString(key), CommandHandler::GetHandler) => {
                                Some(get_reply(context.store.get(key.as_str())))
                            },
                            (RespToken::BulkString(key), _) => match &es[2] {
                                RespToken::BulkString(value) => {
                                    context.store.insert(key.clone(), value.clone(), None);
                                    let ok = text("OK");
                                    proof {
                                        assert(ok@ =~= seq!['O', 'K']);
                                    }
                                    Some(RespToken::SimpleString(ok))
                                },
                                _ => None,
                            },
                            _ => None,
                        }
                    },
                    _ => None,
                }
            },
        }
    }
}

pub open spec fn all_bulk_upto(es: Seq<RespToken>, k: int) -> bool {
    forall|j: int| 0 <= j < k ==> #[trigger] es[j] is BulkString
}

/// Tries its handlers in a fixed order; the first that recognises a request
/// answers it.
pub struct CommandDispatcher {
    handlers: Vec<CommandHandler>,
}

impl CommandDispatcher {
    #[verifier::type_invariant]
    spec fn in_order(self) -> bool {
        self.handlers@ == handler_order()
    }

    pub fn new() -> (r: CommandDispatcher) {
        let handlers = vec![
            CommandHandler::PingHandler,
            CommandHandler::EchoHandler,
            CommandHandler::GetHandler,
            CommandHandler::SetHandler,
        ];
        proof {
            assert(handlers@ =~= handler_order());
        }
        CommandDispatcher { handlers }
    }

    /// The reply to a request: that of the first handler that recognises it,
    /// or the unknown-command error.
    pub fn dispatch(&self, context: &CommandContext) -> (r: RespToken)
        ensures
            match command_of(context.token@) {
                None => r@ == unknown_command(),
                Some(c) => answers(c, r@),
            },
    {
        proof {
            use_type_invariant(self);
        }
        let ghost t = context.token@;
        let mut i: usize = 0;
        proof {
            assert(self.handlers@.skip(0) =~= self.handlers@);
        }
        while i < self.handlers.len()
            invariant
                self.handlers@ == handler_order(),
                i <= self.handlers.len(),
                t == context.token@,
                command_of(t) == first_recognized(self.handlers@.skip(i as int), t),
            decreases self.handlers.len() - i,
        {
            proof {
                assert(self.handlers@.skip(i as int).drop_first() =~= self.handlers@.skip(
                    i as int + 1,
                ));
            }
            match self.handlers[i].try_handle(context) {
                Some(response) => {
                    return response;
                },
                None => {},
            }
            i = i + 1;
        }
        proof {
            reveal_strlit("unknown command");
        }
        let message = text("unknown command");
        proof {
            assert(message@ =~= unknown_command()->Error_0);
        }
        RespToken::SimpleError(message)
    }
}

/// The reply to text that does not decode.
pub open spec fn parse_error() -> TokenView {
    TokenView::Error(seq!['p', 'a', 'r', 's', 'e', ' ', 'e', 'r', 'r', 'o', 'r'])
}

/// Decodes one request, dispatches it against `store`, and returns the reply;
/// text that does not decode gets the parse error.
pub fn handle_request(request: &str, store: Store) -> (r: RespToken)
    ensures
        match decode(request@) {
            None => r@ == parse_error(),
            Some((t, _)) => match command_of(t) {
                None => r@ == unknown_command(),
                Some(c) => answers(c, r@),
            },
        },
{
    match tokenize(request) {
        Ok((_, token)) => {
            let dispatcher = CommandDispatcher::new();
            dispatcher.dispatch(&CommandContext { token, store })
        },
        Err(_) => {
            proof {
                reveal_strlit("parse error");
            }
            let message = text("parse error");
            proof {
                assert(message@ =~= parse_error()->Error_0);
            }
            RespToken::SimpleError(message)
        },
    }
}

proof fn lemma_words_distinct()
    ensures
        word(CommandHandler::PingHandler) != word(CommandHandler::EchoHandler),
        word(CommandHandler::PingHandler) != word(CommandHandler::GetHandler),
        word(CommandHandler::PingHandler) != word(CommandHandler::SetHandler),
        word(CommandHandler::EchoHandler) != word(CommandHandler::GetHandler),
        word(CommandHandler::EchoHandler) != word(CommandHandler::SetHandler),
        word(CommandHandler::GetHandler) != word(CommandHandler::SetHandler),
{
    assert(word(CommandHandler::PingHandler)[0] != word(CommandHandler::EchoHandler)[0]);
    assert(word(CommandHandler::GetHandler)[0] != word(CommandHandler::SetHandler)[0]);
}

/// The ordered resolution spelled out over the four handlers.
proof fn lemma_command_of(t: TokenView)
    ensures
        command_of(t) == (if recognized(CommandHandler::PingHandler, t) is Some {
            recognized(CommandHandler::PingHandler, t)
        } else if recognized(CommandHandler::EchoHandler, t) is Some {
            recognized(CommandHandler::EchoHandler, t)
        } else if recognized(CommandHandler::GetHandler, t) is Some {
            recognized(CommandHandler::GetHandler, t)
        } else {
            recognized(CommandHandler::SetHandler, t)
        }),
{
    let hs = handler_order();
    assert(hs.drop_first() =~= seq![
        CommandHandler::EchoHandler,
        CommandHandler::GetHandler,
        CommandHandler::SetHandler,
    ]);
    assert(hs.drop_first().drop_first() =~= seq![
        CommandHandler::GetHandler,
        CommandHandler::SetHandler,
    ]);
    assert(hs.drop_first().drop_first().drop_first() =~= seq![CommandHandler::SetHandler]);
    assert(hs.drop_first().drop_first().drop_first().drop_first() =~= Seq::<
        CommandHandler,
    >::empty());
    reveal_with_fuel(first_recognized, 5);
}

/// Requests whose command words have the same upper-case form resolve to the
/// same command: as a lone simple or bulk string, or at the head of an array
/// of bulk strings.
pub proof fn lemma_case_insensitive(a: Seq<char>, b: Seq<char>, args: Seq<TokenView>)
    requires
        upper_of(a) == upper_of(b),
    ensures
        command_of(TokenView::Simple(a)) == command_of(TokenView::Simple(b)),
        command_of(TokenView::Bulk(a)) == command_of(TokenView::Bulk(b)),
        command_of(TokenView::Arr(seq![TokenView::Bulk(a)] + args)) == command_of(
            TokenView::Arr(seq![TokenView::Bulk(b)] + args),
        ),
{
    let ta = TokenView::Arr(seq![TokenView::Bulk(a)] + args);
    let tb = TokenView::Arr(seq![TokenView::Bulk(b)] + args);
    let ea = seq![TokenView::Bulk(a)] + args;
    let eb = seq![TokenView::Bulk(b)] + args;
    assert(ea[0] == TokenView::Bulk(a));
    assert(eb[0] == TokenView::Bulk(b));
    assert forall|k: int| 1 <= k < ea.len() implies ea[k] == eb[k] by {
        assert(ea[k] == args[k - 1]);
        assert(eb[k] == args[k - 1]);
    }
    assert(forall|k: int| 0 <= k < ea.len() ==> (#[trigger] ea[k] is Bulk <==> eb[k] is Bulk));
    assert(is_ping_token(ta) == is_ping_token(tb));
    assert(bulk_call(ta, word(CommandHandler::EchoHandler), 2) == bulk_call(tb, word(CommandHandler::EchoHandler), 2));
    assert(bulk_call(ta, word(CommandHandler::SetHandler), 3) == bulk_call(tb, word(CommandHandler::SetHandler), 3));
    lemma_command_of(ta);
    lemma_command_of(tb);
    lemma_command_of(TokenView::Simple(a));
    lemma_command_of(TokenView::Simple(b));
    lemma_command_of(TokenView::Bulk(a));
    lemma_command_of(TokenView::Bulk(b));
}

/// Whether `w` is the word of one of the commands.
pub open spec fn is_command_word(w: Seq<char>) -> bool {
    w == word(CommandHandler::PingHandler) || w == word(CommandHandler::EchoHandler) || w == word(
        CommandHandler::GetHandler,
    ) || w == word(CommandHandler::SetHandler)
}

/// The number of elements, the word included, that a command's array takes.
pub open spec fn arity(w: Seq<char>) -> nat {
    if w == word(CommandHandler::PingHandler) {
        1
    } else if w == word(CommandHandler::SetHandler) {
        3
    } else {
        2
    }
}

/// An array whose first element is a simple or bulk string that folds to no
/// command word, or that is neither a string nor an array, resolves to no
/// command, so that the request gets the unknown-command error.
pub proof fn lemma_unknown_word(es: Seq<TokenView>)
    requires
        es.len() >= 1,
        !(es[0] is Arr),
        es[0] is Simple ==> !is_command_word(upper_of(es[0]->Simple_0)),
        es[0] is Bulk ==> !is_command_word(upper_of(es[0]->Bulk_0)),
    ensures
        command_of(TokenView::Arr(es)) is None,
{
    reveal_with_fuel(is_ping_token, 2);
    lemma_words_distinct();
    lemma_command_of(TokenView::Arr(es));
}

/// An array of bulk strings headed by a command word, with a number of
/// elements other than that command takes, resolves to no command, so that
/// the request gets the unknown-command error.
pub proof fn lemma_wrong_arity(es: Seq<TokenView>)
    requires
        es.len() >= 1,
        forall|k: int| 0 <= k < es.len() ==> #[trigger] es[k] is Bulk,
        is_command_word(upper_of(es[0]->Bulk_0)),
        es.len() != arity(upper_of(es[0]->Bulk_0)),
    ensures
        command_of(TokenView::Arr(es)) is None,
{
    reveal_with_fuel(is_ping_token, 2);
    lemma_words_distinct();
    lemma_command_of(TokenView::Arr(es));
}

} // verus!
