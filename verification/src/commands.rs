//! The decisions of the bot's commands: what each command answers, given
//! what the database and the user answered.
use vstd::prelude::*;
use rand::seq::SliceRandom;
use vstd::string::StringExecFns;
use crate::data::{AutocompleteData, GameData, Item, Skin};
use crate::embed::{
    author_not_registered_message, member_not_registered_message, EmbedField, CLAIM_MENTION,
    REGISTER_MENTION,
};
use crate::text::{
    chars_of, currency_string, currency_text, decimal, decimal_string, has_prefix, lemma_map_take_push,
    lemma_texts_push, lowercase_of, normalize_item_name, normalized_name, str_to_lowercase,
    string_from_chars, texts, trim_chars, trimmed,
};

verus! {

/// The colour of an embed.
#[derive(Debug, Clone, Copy, PartialEq, Eq, Structural)]
pub enum Tone {
    DarkGreen,
    Red,
    DarkRed,
}

/// A plain text reply: a success (dark green) or an error (red).
#[derive(Debug, PartialEq, Eq)]
pub enum Reply {
    Success(String),
    Error(String),
}

impl Reply {
    /// The text of the reply.
    pub open spec fn text(self) -> Seq<char> {
        match self {
            Reply::Success(m) => m@,
            Reply::Error(m) => m@,
        }
    }
}

// ----------------------------------------------------------------------------
// balance

/// The reply to the balance command, given the display name of the member
/// asked about (none when the author asks about themselves) and their balance
/// (none when they are not registered).
pub fn balance_reply(member_name: Option<&str>, balance: Option<i64>) -> (r: Reply)
    ensures
        match (member_name, balance) {
            (Some(name), Some(b)) => r is Success && r.text() == "**"@ + name@
                + "'s** balance is: **"@ + currency_text(b as u64 as nat) + "**"@,
            (None, Some(b)) => r is Success && r.text() == "Your balance is: **"@
                + currency_text(b as u64 as nat) + "**"@,
            (Some(name), None) => r is Error && r.text() == "**"@ + name@
                + "** is **not** registered!"@,
            (None, None) => r is Error && r.text() == "You are **not** registered! Use "@
                + REGISTER_MENTION@ + " to register"@,
        },
{
    match balance {
        Some(signed_balance) => {
            let amount = currency_string(signed_balance as u64);
            match member_name {
                Some(name) => {
                    let mut m = "**".to_owned();
                    m.append(name);
                    m.append("'s** balance is: **");
                    m.append(amount.as_str());
                    m.append("**");
                    Reply::Success(m)
                },
                None => {
                    let mut m = "Your balance is: **".to_owned();
                    m.append(amount.as_str());
                    m.append("**");
                    Reply::Success(m)
                },
            }
        },
        None => match member_name {
            Some(name) => Reply::Error(member_not_registered_message(name)),
            None => Reply::Error(author_not_registered_message()),
        },
    }
}

// ----------------------------------------------------------------------------
// claim

/// The claim of the first day of a streak, in cents.
pub const BASE_CLAIM: u64 = 10000;

/// What each further day of a streak adds to the claim, in cents.
pub const CLAIM_COMMON_DIFF: u64 = 2500;

/// The largest claim, in cents.
pub const MAX_CLAIM: u64 = 30000;

/// The claim streak values make sense: the claims grow from the base claim by
/// whole steps up to the largest claim.
pub proof fn claim_constants_consistent()
    ensures
        MAX_CLAIM >= BASE_CLAIM,
        BASE_CLAIM % CLAIM_COMMON_DIFF == 0,
        MAX_CLAIM % CLAIM_COMMON_DIFF == 0,
{
}

/// What the database answered to a claim by a registered user.
#[derive(Debug)]
pub struct ClaimRow {
    pub update_successful: bool,
    pub change: i64,
    pub balance: i64,
    pub claim_streak: i64,
}

/// The reply to the claim command.
#[derive(Debug)]
pub enum ClaimReply {
    /// The claim went through: an embed with a title, a description, a footer
    /// and three inline fields.
    Claimed { title: String, description: String, footer: String, fields: Vec<EmbedField> },
    /// The user already claimed today.
    TooSoon(Reply),
    /// The user is not registered.
    NotRegistered(Reply),
}

fn field(name: &str, value: String) -> (f: EmbedField)
    ensures
        f.name@ == name@,
        f.value == value,
        f.inline,
{
    EmbedField { name: name.to_owned(), value, inline: true }
}

/// The reply to the claim command, given the database's answer (none when
/// the user is not registered).
pub fn claim_reply(row: Option<ClaimRow>) -> (r: ClaimReply)
    ensures
        match row {
            None => r is NotRegistered && r->NotRegistered_0 is Error
                && r->NotRegistered_0.text() == "You are **not** registered! Use "@ + REGISTER_MENTION@
                + " to register"@,
            Some(row) => if row.update_successful {
                &&& r is Claimed
                &&& r->title@ == "You have successfully claimed your daily reward"@
                &&& r->description@ == "Come back **tomorrow** to claim again!"@
                &&& r->footer@ == "Note: claim streaks reset after 1 day without claiming"@
                &&& r->fields.len() == 3
                &&& r->fields@[0].name@ == "Amount"@ && r->fields@[0].value@ == currency_text(
                    row.change as u64 as nat,
                )
                &&& r->fields@[1].name@ == "New Balance"@ && r->fields@[1].value@ == currency_text(
                    row.balance as u64 as nat,
                )
                &&& r->fields@[2].name@ == "Streak 🔥"@ && r->fields@[2].value@ == decimal(
                    row.claim_streak as u64 as nat,
                )
                &&& forall|i: int| 0 <= i < 3 ==> (#[trigger] r->fields@[i]).inline
            } else {
                r is TooSoon && r->TooSoon_0 is Error
                    && r->TooSoon_0.text() == "You can claim again tomorrow!"@
            },
        },
{
    match row {
        Some(row) => {
            if row.update_successful {
                let mut fields: Vec<EmbedField> = Vec::new();
                fields.push(field("Amount", currency_string(row.change as u64)));
                fields.push(field("New Balance", currency_string(row.balance as u64)));
                fields.push(field("Streak 🔥", decimal_string(row.claim_streak as u64)));
                ClaimReply::Claimed {
                    title: "You have successfully claimed your daily reward".to_owned(),
                    description: "Come back **tomorrow** to claim again!".to_owned(),
                    footer: "Note: claim streaks reset after 1 day without claiming".to_owned(),
                    fields,
                }
            } else {
                ClaimReply::TooSoon(Reply::Error("You can claim again tomorrow!".to_owned()))
            }
        },
        None => ClaimReply::NotRegistered(Reply::Error(author_not_registered_message())),
    }
}

// ----------------------------------------------------------------------------
// amounts and balance deductions

/// The error for a flip bet of zero cents.
pub fn flip_bet_error(bet: u64) -> (r: Option<Reply>)
    ensures
        bet == 0 ==> r is Some && r->0 is Error && r->0.text()
            == "You **must** bet an amount greater than zero"@,
        bet != 0 ==> r is None,
{
    if bet == 0 {
        Some(Reply::Error("You **must** bet an amount greater than zero".to_owned()))
    } else {
        None
    }
}

/// The error for an unboxing session of zero cents.
pub fn session_amount_error(amount: u64) -> (r: Option<Reply>)
    ensures
        amount == 0 ==> r is Some && r->0 is Error && r->0.text()
            == "Amount of balance **must** must be greater than zero"@,
        amount != 0 ==> r is None,
{
    if amount == 0 {
        Some(Reply::Error("Amount of balance **must** must be greater than zero".to_owned()))
    } else {
        None
    }
}

/// The error to send after trying to deduct balance from the author for a
/// quiz, a session or a transfer, given the database's answer (none when the
/// author is not registered, else whether the balance sufficed); none when
/// the deduction went through.
pub fn deduction_reply(deducted: Option<bool>) -> (r: Option<Reply>)
    ensures
        match deducted {
            None => r is Some && r->0 is Error && r->0.text() == "You are **not** registered! Use "@
                + REGISTER_MENTION@ + " to register"@,
            Some(false) => r is Some && r->0 is Error && r->0.text() == "You do not have enough balance!"@,
            Some(true) => r is None,
        },
{
    match deducted {
        None => Some(Reply::Error(author_not_registered_message())),
        Some(false) => Some(Reply::Error("You do not have enough balance!".to_owned())),
        Some(true) => None,
    }
}

// ----------------------------------------------------------------------------
// flip

/// A side of the coin to bet on.
#[derive(Debug, Clone, Copy, PartialEq, Eq, Structural)]
pub enum CoinSideChoice {
    Terrorist,
    CounterTerrorist,
}

/// Whether the user won a flip: the side they chose came up.
pub fn flip_won(side: CoinSideChoice, ct_won: bool) -> (won: bool)
    ensures
        won == ((side == CoinSideChoice::CounterTerrorist) == ct_won),
{
    let ct_chosen = side == CoinSideChoice::CounterTerrorist;
    ct_chosen == ct_won
}

/// The embed that announces the result of a flip.
#[derive(Debug)]
pub struct FlipEmbed {
    pub counter_terrorists_won: bool,
    pub title: String,
    pub tone: Tone,
    pub description: String,
}

/// The reply to a flip, given which side won, whether the user won, the bet,
/// the amount won, and the database's answer (none when the user is not
/// registered, else whether the transaction went through).
pub fn flip_reply(
    ct_won: bool,
    user_won: bool,
    bet: u64,
    win_amount: u64,
    outcome: Option<bool>,
) -> (r: Result<FlipEmbed, Reply>)
    ensures
        match outcome {
            None => r is Err && r->Err_0 is Error
                && r->Err_0.text() == "You are **not** registered! Use "@ + REGISTER_MENTION@ + " to register"@,
            Some(false) => r is Err && r->Err_0 is Error
                && r->Err_0.text() == "You do not have enough balance to bet this much!"@,
            Some(true) => {
                &&& r is Ok
                &&& r->Ok_0.counter_terrorists_won == ct_won
                &&& r->Ok_0.title@ == if ct_won {
                    "Counter Terrorists Win!"@
                } else {
                    "Terrorists Win!"@
                }
                &&& r->Ok_0.tone == if user_won {
                    Tone::DarkGreen
                } else {
                    Tone::Red
                }
                &&& r->Ok_0.description@ == if user_won {
                    "You won **"@ + currency_text(win_amount as nat) + "**"@
                } else {
                    "You lost **"@ + currency_text(bet as nat) + "**"@
                }
            },
        },
{
    match outcome {
        None => Err(Reply::Error(author_not_registered_message())),
        Some(false) => Err(
            Reply::Error("You do not have enough balance to bet this much!".to_owned()),
        ),
        Some(true) => {
            let title = if ct_won {
                "Counter Terrorists Win!".to_owned()
            } else {
                "Terrorists Win!".to_owned()
            };
            let (description, tone) = if user_won {
                let mut d = "You won **".to_owned();
                d.append(currency_string(win_amount).as_str());
                d.append("**");
                (d, Tone::DarkGreen)
            } else {
                let mut d = "You lost **".to_owned();
                d.append(currency_string(bet).as_str());
                d.append("**");
                (d, Tone::Red)
            };
            Ok(FlipEmbed { counter_terrorists_won: ct_won, title, tone, description })
        },
    }
}

// ----------------------------------------------------------------------------
// register

/// The reply to the register command and whether the user count grows.
#[derive(Debug)]
pub struct RegisterOutcome {
    pub reply: Reply,
    pub increment_user_count: bool,
}

/// The outcome of the register command, given how many rows the insertion
/// of the user added (none when they were registered already).
pub fn register_reply(rows_affected: u64) -> (r: RegisterOutcome)
    ensures
        r.increment_user_count == (rows_affected != 0),
        rows_affected == 0 ==> r.reply is Error && r.reply.text()
            == "You are **already** registered!"@,
        rows_affected != 0 ==> r.reply is Success && r.reply.text()
            == "Registered! Use "@ + CLAIM_MENTION@ + " to claim your daily balance"@,
{
    if rows_affected == 0 {
        RegisterOutcome {
            reply: Reply::Error("You are **already** registered!".to_owned()),
            increment_user_count: false,
        }
    } else {
        let mut m = "Registered! Use ".to_owned();
        m.append(CLAIM_MENTION);
        m.append(" to claim your daily balance");
        RegisterOutcome { reply: Reply::Success(m), increment_user_count: true }
    }
}

// ----------------------------------------------------------------------------
// delete and reset: a confirmed change to the author's account

/// The account change that a confirmation flow carries out.
#[derive(Debug, Clone, Copy, PartialEq, Eq, Structural)]
pub enum AccountAction {
    Delete,
    Reset,
}

/// Where a confirmation flow stands.
#[derive(Debug, Clone, Copy, PartialEq, Eq, Structural)]
pub enum FlowState {
    /// Waiting to learn whether the author has an account.
    CheckingAccount,
    /// Waiting for the author to answer the yes/no prompt.
    AwaitingAnswer,
    /// Waiting for the database to carry out the change.
    Applying,
    /// Nothing more to do.
    Done,
}

/// What a confirmation flow learns.
#[derive(Debug, Clone, Copy, PartialEq, Eq, Structural)]
pub enum FlowEvent {
    /// Whether the author has an account.
    AccountExists(bool),
    /// The author's answer to the prompt; none when they did not answer in time.
    Answer(Option<bool>),
    /// How many rows the change touched.
    RowsAffected(u64),
}

/// What a confirmation flow does next.
#[derive(Debug, PartialEq, Eq)]
pub enum FlowAction {
    /// Tell the author that they are not registered.
    SendNotRegistered(Reply),
    /// Ask the author a yes/no question; the prompt shows the second text if
    /// they do not answer in time.
    AskYesNo { question: String, timeout_message: String },
    /// Carry out the change in the database.
    ApplyChange,
    /// Replace the prompt by an embed of the given tone and text, first
    /// lowering the user count if asked to.
    UpdatePrompt { tone: Tone, text: String, decrement_user_count: bool },
    /// Do nothing.
    Nothing,
}

/// How many steps a flow in `state` has left at most.
pub open spec fn flow_rank(state: FlowState) -> nat {
    match state {
        FlowState::CheckingAccount => 3,
        FlowState::AwaitingAnswer => 2,
        FlowState::Applying => 1,
        FlowState::Done => 0,
    }
}

/// The question, timeout text, failure text, success text and cancel text of
/// an account change.
pub open spec fn flow_texts(action: AccountAction) -> (Seq<char>, Seq<char>, Seq<char>, Seq<char>, Seq<char>) {
    match action {
        AccountAction::Delete => (
            "Are you **sure** you want to delete your SpaceCases account? All progress will be **permanently** lost!"@,
            "Deletion of account **cancelled** as you did not respond in time"@,
            "**Failed** to delete account as it no longer exists"@,
            "Your account has been **deleted**. You can use "@ + REGISTER_MENTION@
                + " at any time to create a new one"@,
            "Account deletion **cancelled**"@,
        ),
        AccountAction::Reset => (
            "Are you **sure** you want to reset your SpaceCases progress? This action is **irreversible!**"@,
            "Account reset **cancelled** as you did not respond in time"@,
            "**Failed** to reset account as it no longer exists"@,
            "Your account statics have been successfully reset"@,
            "Account reset cancelled as you failed to choose an option"@,
        ),
    }
}

/// One step of the flow that deletes or resets the author's account after
/// they confirm it: from the state and what was learned, the next state and
/// what to do. Every step moves closer to the end.
pub fn account_flow_step(action: AccountAction, state: FlowState, event: FlowEvent) -> (r: (
    FlowState,
    FlowAction,
))
    ensures
        state != FlowState::Done ==> flow_rank(r.0) < flow_rank(state),
        state == FlowState::Done ==> r == (FlowState::Done, FlowAction::Nothing),
        match (state, event) {
            (FlowState::CheckingAccount, FlowEvent::AccountExists(false)) => r.0 == FlowState::Done
                && r.1 is SendNotRegistered && r.1->SendNotRegistered_0 is Error
                && r.1->SendNotRegistered_0.text() == "You are **not** registered! Use "@
                + REGISTER_MENTION@ + " to register"@,
            (FlowState::CheckingAccount, FlowEvent::AccountExists(true)) => r.0
                == FlowState::AwaitingAnswer && r.1 is AskYesNo && r.1->question@ == flow_texts(
                action,
            ).0 && r.1->timeout_message@ == flow_texts(action).1,
            (FlowState::AwaitingAnswer, FlowEvent::Answer(None)) => r == (
                FlowState::Done,
                FlowAction::Nothing,
            ),
            (FlowState::AwaitingAnswer, FlowEvent::Answer(Some(true))) => r == (
                FlowState::Applying,
                FlowAction::ApplyChange,
            ),
            (FlowState::AwaitingAnswer, FlowEvent::Answer(Some(false))) => r.0 == FlowState::Done
                && r.1 is UpdatePrompt && r.1->tone == Tone::Red && r.1->text@ == flow_texts(
                action,
            ).4 && !r.1->decrement_user_count,
            (FlowState::Applying, FlowEvent::RowsAffected(n)) => r.0 == FlowState::Done
                && r.1 is UpdatePrompt && if n == 0 {
                r.1->tone == Tone::DarkRed && r.1->text@ == flow_texts(action).2
                    && !r.1->decrement_user_count
            } else {
                r.1->tone == Tone::DarkGreen && r.1->text@ == flow_texts(action).3
                    && r.1->decrement_user_count == (action == AccountAction::Delete && n == 1)
            },
            _ => r == (FlowState::Done, FlowAction::Nothing),
        },
{
    let delete = action == AccountAction::Delete;
    match (state, event) {
        (FlowState::CheckingAccount, FlowEvent::AccountExists(false)) => (
            FlowState::Done,
            FlowAction::SendNotRegistered(Reply::Error(author_not_registered_message())),
        ),
        (FlowState::CheckingAccount, FlowEvent::AccountExists(true)) => {
            let (question, timeout_message) = if delete {
                (
                    "Are you **sure** you want to delete your SpaceCases account? All progress will be **permanently** lost!".to_owned(),
                    "Deletion of account **cancelled** as you did not respond in time".to_owned(),
                )
            } else {
                (
                    "Are you **sure** you want to reset your SpaceCases progress? This action is **irreversible!**".to_owned(),
                    "Account reset **cancelled** as you did not respond in time".to_owned(),
                )
            };
            (FlowState::AwaitingAnswer, FlowAction::AskYesNo { question, timeout_message })
        },
        (FlowState::AwaitingAnswer, FlowEvent::Answer(None)) => (FlowState::Done, FlowAction::Nothing),
        (FlowState::AwaitingAnswer, FlowEvent::Answer(Some(true))) => (
            FlowState::Applying,
            FlowAction::ApplyChange,
        ),
        (FlowState::AwaitingAnswer, FlowEvent::Answer(Some(false))) => {
            let text = if delete {
                "Account deletion **cancelled**".to_owned()
            } else {
                "Account reset cancelled as you failed to choose an option".to_owned()
            };
            (
                FlowState::Done,
                FlowAction::UpdatePrompt { tone: Tone::Red, text, decrement_user_count: false },
            )
        },
        (FlowState::Applying, FlowEvent::RowsAffected(n)) => {
            if n == 0 {
                let text = if delete {
                    "**Failed** to delete account as it no longer exists".to_owned()
                } else {
                    "**Failed** to reset account as it no longer exists".to_owned()
                };
                (
                    FlowState::Done,
                    FlowAction::UpdatePrompt { tone: Tone::DarkRed, text, decrement_user_count: false },
                )
            } else {
                let text = if delete {
                    let mut t = "Your account has been **deleted**. You can use ".to_owned();
                    t.append(REGISTER_MENTION);
                    t.append(" at any time to create a new one");
                    t
                } else {
                    "Your account statics have been successfully reset".to_owned()
                };
                (
                    FlowState::Done,
                    FlowAction::UpdatePrompt {
                        tone: Tone::DarkGreen,
                        text,
                        decrement_user_count: delete && n == 1,
                    },
                )
            }
        },
        _ => (FlowState::Done, FlowAction::Nothing),
    }
}


// ----------------------------------------------------------------------------
// start

/// The fields of the embed that opens an unboxing session with `amount` cents:
/// what remains, what was spent and what was returned.
pub fn session_fields(amount: u64) -> (f: Vec<EmbedField>)
    ensures
        f.len() == 3,
        f@[0].name@ == "Remaining"@ && f@[0].value@ == currency_text(amount as nat),
        f@[1].name@ == "Spent"@ && f@[1].value@ == currency_text(0),
        f@[2].name@ == "Return"@ && f@[2].value@ == currency_text(0),
        forall|i: int| 0 <= i < 3 ==> (#[trigger] f@[i]).inline,
{
    let mut f: Vec<EmbedField> = Vec::new();
    f.push(field("Remaining", currency_string(amount)));
    f.push(field("Spent", currency_string(0)));
    f.push(field("Return", currency_string(0)));
    f
}

// ----------------------------------------------------------------------------
// transfer

/// The error that stops a transfer of `amount` cents from `sender` to
/// `recipient` before the database is asked, if there is one.
pub fn transfer_check(amount: u64, sender: u64, recipient: u64) -> (r: Option<Reply>)
    ensures
        amount == 0 ==> r is Some && r->0 is Error && r->0.text()
            == "You **must** transfer an amount greater than zero"@,
        amount != 0 && sender == recipient ==> r is Some && r->0 is Error && r->0.text()
            == "You cannot transfer balance to yourself!"@,
        amount != 0 && sender != recipient ==> r is None,
{
    if amount == 0 {
        Some(Reply::Error("You **must** transfer an amount greater than zero".to_owned()))
    } else if sender == recipient {
        Some(Reply::Error("You cannot transfer balance to yourself!".to_owned()))
    } else {
        None
    }
}

/// The end of a transfer: the reply, and whether the transaction is
/// committed.
#[derive(Debug)]
pub struct TransferOutcome {
    pub reply: Reply,
    pub commit: bool,
}

/// The end of a transfer of `amount` cents, given how many rows crediting the
/// recipient touched and the recipient's display name. The transaction is
/// committed exactly when the recipient was credited.
pub fn transfer_outcome(rows_affected: u64, amount: u64, recipient_name: &str) -> (r: TransferOutcome)
    ensures
        r.commit == (rows_affected != 0),
        rows_affected == 0 ==> r.reply is Error && r.reply.text() == "**"@ + recipient_name@
            + "** is **not** registered!"@,
        rows_affected != 0 ==> r.reply is Success && r.reply.text() == "Successfully transferred **"@
            + currency_text(amount as nat) + "** to **"@ + recipient_name@ + "**"@,
{
    if rows_affected == 0 {
        TransferOutcome { reply: Reply::Error(member_not_registered_message(recipient_name)), commit: false }
    } else {
        let mut m = "Successfully transferred **".to_owned();
        m.append(currency_string(amount).as_str());
        m.append("** to **");
        m.append(recipient_name);
        m.append("**");
        TransferOutcome { reply: Reply::Success(m), commit: true }
    }
}

// ----------------------------------------------------------------------------
// item

/// The item a user asked for by name: the item whose name is the normalized
/// form of the query.
pub fn find_item<'a>(game_data: &'a GameData, query: &str) -> (r: Option<&'a Item>)
    ensures
        match r {
            Some(item) => game_data.item_data@.contains_key(normalized_name(query@))
                && *item == game_data.item_data@[normalized_name(query@)],
            None => !game_data.item_data@.contains_key(normalized_name(query@)),
        },
{
    let name = normalize_item_name(query);
    game_data.item_data.get(name.as_str())
}

/// The error sent for a query that names no item, with the closest name if
/// there is one.
pub fn item_missing_message(query: &str, closest: Option<&str>) -> (m: String)
    ensures
        m@ == match closest {
            Some(c) => "Item `"@ + query@ + "` does not exist! Did you mean `"@ + c@ + "`?"@,
            None => "Item **"@ + query@ + "** does not exist!"@,
        },
{
    match closest {
        Some(c) => {
            let mut m = "Item `".to_owned();
            m.append(query);
            m.append("` does not exist! Did you mean `");
            m.append(c);
            m.append("`?");
            m
        },
        None => {
            let mut m = "Item **".to_owned();
            m.append(query);
            m.append("** does not exist!");
            m
        },
    }
}

/// The display names whose normalized names start with `partial`, in order;
/// names are paired by position, and a name without a partner is ignored.
pub open spec fn autocomplete_result(
    formatted: Seq<String>,
    unformatted: Seq<String>,
    partial: Seq<char>,
    n: int,
) -> Seq<Seq<char>>
    decreases n,
{
    if n <= 0 {
        Seq::empty()
    } else {
        autocomplete_result(formatted, unformatted, partial, n - 1) + if crate::trie::starts_with(
            unformatted[n - 1]@,
            partial,
        ) {
            seq![formatted[n - 1]@]
        } else {
            Seq::empty()
        }
    }
}

/// `x` is the display name of one of the first `n` pairs whose normalized
/// name starts with `partial`.
pub open spec fn offered_for(
    formatted: Seq<String>,
    unformatted: Seq<String>,
    partial: Seq<char>,
    n: int,
    x: Seq<char>,
) -> bool {
    exists|i: int|
        0 <= i < n && crate::trie::starts_with(unformatted[i]@, partial) && #[trigger] formatted[i]@ == x
}

/// Autocompletion offers exactly the display names whose normalized partners
/// start with the whole typed text: each offered name is the display name of
/// such a pair, and the display name of every such pair is offered.
pub proof fn law_autocomplete_offers_matches(
    formatted: Seq<String>,
    unformatted: Seq<String>,
    partial: Seq<char>,
    n: int,
)
    requires
        0 <= n <= formatted.len(),
        n <= unformatted.len(),
    ensures
        forall|k: int|
            0 <= k < autocomplete_result(formatted, unformatted, partial, n).len() ==> offered_for(
                formatted,
                unformatted,
                partial,
                n,
                #[trigger] autocomplete_result(formatted, unformatted, partial, n)[k],
            ),
        forall|i: int|
            0 <= i < n && crate::trie::starts_with(#[trigger] unformatted[i]@, partial)
                ==> autocomplete_result(formatted, unformatted, partial, n).contains(formatted[i]@),
    decreases n,
{
    if n > 0 {
        law_autocomplete_offers_matches(formatted, unformatted, partial, n - 1);
        let prev = autocomplete_result(formatted, unformatted, partial, n - 1);
        let m = crate::trie::starts_with(unformatted[n - 1]@, partial);
        assert(autocomplete_result(formatted, unformatted, partial, n) == prev + if m {
            seq![formatted[n - 1]@]
        } else {
            Seq::<Seq<char>>::empty()
        });
        assert forall|i: int|
            0 <= i < n && crate::trie::starts_with(#[trigger] unformatted[i]@, partial) implies autocomplete_result(
            formatted,
            unformatted,
            partial,
            n,
        ).contains(formatted[i]@) by {
            if i < n - 1 {
                let k = choose|k: int| 0 <= k < prev.len() && prev[k] == formatted[i]@;
                assert(autocomplete_result(formatted, unformatted, partial, n)[k] == prev[k]);
            } else {
                assert(autocomplete_result(formatted, unformatted, partial, n)[prev.len() as int]
                    == formatted[i]@);
            }
        }
    }
    assert forall|k: int|
        0 <= k < autocomplete_result(formatted, unformatted, partial, n).len() implies offered_for(
            formatted,
            unformatted,
            partial,
            n,
            #[trigger] autocomplete_result(formatted, unformatted, partial, n)[k],
        ) by {
        let i = lemma_offered_source(formatted, unformatted, partial, n, k);
    }
}

proof fn lemma_offered_source(
    formatted: Seq<String>,
    unformatted: Seq<String>,
    partial: Seq<char>,
    n: int,
    k: int,
) -> (i: int)
    requires
        0 <= n <= formatted.len(),
        n <= unformatted.len(),
        0 <= k < autocomplete_result(formatted, unformatted, partial, n).len(),
    ensures
        0 <= i < n,
        crate::trie::starts_with(unformatted[i]@, partial),
        autocomplete_result(formatted, unformatted, partial, n)[k] == formatted[i]@,
    decreases n,
{
    let prev = autocomplete_result(formatted, unformatted, partial, n - 1);
    let m = crate::trie::starts_with(unformatted[n - 1]@, partial);
    assert(autocomplete_result(formatted, unformatted, partial, n) == prev + if m {
        seq![formatted[n - 1]@]
    } else {
        Seq::<Seq<char>>::empty()
    });
    if k < prev.len() {
        lemma_offered_source(formatted, unformatted, partial, n - 1, k)
    } else {
        n - 1
    }
}

/// The item names offered while the user types `partial`.
pub fn autocomplete(data: &AutocompleteData, partial: &str) -> (r: Vec<String>)
    ensures
        texts(r@) == autocomplete_result(
            data.formatted@,
            data.unformatted@,
            partial@,
            if data.formatted.len() < data.unformatted.len() {
                data.formatted.len() as int
            } else {
                data.unformatted.len() as int
            },
        ),
{
    let n = if data.formatted.len() < data.unformatted.len() {
        data.formatted.len()
    } else {
        data.unformatted.len()
    };
    let mut r: Vec<String> = Vec::new();
    let mut i: usize = 0;
    while i < n
        invariant
            n <= data.formatted.len(),
            n <= data.unformatted.len(),
            i <= n,
            texts(r@) == autocomplete_result(data.formatted@, data.unformatted@, partial@, i as int),
        decreases n - i,
    {
        let ghost before = r@;
        if has_prefix(data.unformatted[i].as_str(), partial) {
            r.push(data.formatted[i].clone());
            proof {
                lemma_texts_push(before, data.formatted@[i as int]);
            }
        }
        assert(texts(r@) =~= autocomplete_result(data.formatted@, data.unformatted@, partial@, i + 1));
        i = i + 1;
    }
    r
}

// ----------------------------------------------------------------------------
// skin quiz

/// What a quiz costs, in cents.
pub const QUIZ_PRICE: u64 = 250;

/// What a right answer wins on top of the price, in cents.
pub const QUIZ_REWARD: u64 = 500;

/// Calls `rand::seq::SliceRandom::choose` with the thread's generator on the
/// names and clones the chosen one. Claimed, as rand documents: nothing for an
/// empty slice, else one of its elements; which one is chance.
#[verifier::external_body]
fn choose_random(names: &Vec<String>) -> (r: Option<String>)
    ensures
        r is None <==> names@.len() == 0,
        r matches Some(s) ==> names@.contains(s),
{
    names.as_slice().choose(&mut rand::thread_rng()).cloned()
}

/// Picks the skin of a quiz at random from the skin names; none when there
/// are no skins.
pub fn pick_quiz_skin(skin_names: &Vec<String>) -> (r: Option<String>)
    ensures
        r is None <==> skin_names@.len() == 0,
        r matches Some(s) ==> skin_names@.contains(s),
{
    choose_random(skin_names)
}

/// The skin of a quiz, looked up by its name among the items: the skin, or
/// the item found under that name when it is not a skin.
pub fn quiz_skin<'a>(game_data: &'a GameData, name: &str) -> (r: Result<&'a Skin, &'a Item>)
    requires
        game_data.item_data@.contains_key(name@),
    ensures
        match game_data.item_data@[name@] {
            Item::Skin(skin) => r matches Ok(s) && *s == skin,
            Item::Sticker(_) => r matches Err(item) && *item == game_data.item_data@[name@],
        },
{
    let item = game_data.item_data.get(name).unwrap();
    match item {
        Item::Skin(skin) => Ok(skin),
        Item::Sticker(_) => Err(item),
    }
}

/// The position of the first `c` in `s`, or the length of `s` if there is none.
pub open spec fn first_index_of(s: Seq<char>, c: char) -> int
    decreases s.len(),
{
    if s.len() == 0 {
        0
    } else if s[0] == c {
        0
    } else {
        1 + first_index_of(s.drop_first(), c)
    }
}

/// The second `|`-separated part of `s` (which holds a `|`).
pub open spec fn second_part(s: Seq<char>) -> Seq<char> {
    let rest = s.skip(first_index_of(s, '|') + 1);
    rest.take(first_index_of(rest, '|'))
}

/// The answer of a quiz on the skin named `formatted_name` (such as
/// `AK-47 | Redline`): the skin part of the name, trimmed and lowercased.
pub open spec fn quiz_answer_text(formatted_name: Seq<char>) -> Seq<char> {
    lowercase_of(trimmed(second_part(formatted_name)))
}

proof fn lemma_first_index_of(s: Seq<char>, c: char)
    ensures
        0 <= first_index_of(s, c) <= s.len(),
        first_index_of(s, c) < s.len() ==> s[first_index_of(s, c)] == c,
        forall|j: int| 0 <= j < first_index_of(s, c) ==> s[j] != c,
    decreases s.len(),
{
    if s.len() > 0 && s[0] != c {
        lemma_first_index_of(s.drop_first(), c);
        assert forall|j: int| 0 <= j < first_index_of(s, c) implies s[j] != c by {
            if j > 0 {
                assert(s[j] == s.drop_first()[j - 1]);
            }
        }
    }
}

proof fn lemma_first_index_is(s: Seq<char>, c: char, i: int)
    requires
        0 <= i <= s.len(),
        i < s.len() ==> s[i] == c,
        forall|j: int| 0 <= j < i ==> s[j] != c,
    ensures
        first_index_of(s, c) == i,
    decreases s.len(),
{
    if s.len() > 0 && i > 0 {
        lemma_first_index_is(s.drop_first(), c, i - 1);
    }
}

/// The answer of a quiz is the text between the first `|` of the skin's name
/// and the next `|` (or the end), trimmed and lowercased: every character of
/// that part but the surrounding whitespace counts, hyphens and quotes too.
pub proof fn law_quiz_answer_is_second_part(w: Seq<char>, t: Seq<char>, u: Seq<char>)
    requires
        !w.contains('|'),
        !t.contains('|'),
    ensures
        quiz_answer_text(w + seq!['|'] + t) == lowercase_of(trimmed(t)),
        quiz_answer_text(w + seq!['|'] + t + seq!['|'] + u) == lowercase_of(trimmed(t)),
{
    let s1 = w + seq!['|'] + t;
    let s2 = w + seq!['|'] + t + seq!['|'] + u;
    assert forall|j: int| 0 <= j < w.len() implies s1[j] != '|' && s2[j] != '|' by {
        assert(s1[j] == w[j]);
        assert(s2[j] == w[j]);
        if w[j] == '|' {
            assert(w.contains('|'));
        }
    }
    lemma_first_index_is(s1, '|', w.len() as int);
    lemma_first_index_is(s2, '|', w.len() as int);
    let r1 = s1.skip(w.len() as int + 1);
    let r2 = s2.skip(w.len() as int + 1);
    assert(r1 =~= t);
    assert(r2 =~= t + seq!['|'] + u);
    assert forall|j: int| 0 <= j < t.len() implies t[j] != '|' && r2[j] != '|' by {
        assert(r2[j] == t[j]);
        if t[j] == '|' {
            assert(t.contains('|'));
        }
    }
    lemma_first_index_is(r1, '|', t.len() as int);
    lemma_first_index_is(r2, '|', t.len() as int);
    assert(r1.take(t.len() as int) =~= t);
    assert(r2.take(t.len() as int) =~= t);
}

/// The position of the first `c` at or after `from`, or the length.
fn find_char(chars: &Vec<char>, c: char, from: usize) -> (i: usize)
    requires
        from <= chars@.len(),
    ensures
        i as int == from + first_index_of(chars@.skip(from as int), c),
        from <= i <= chars@.len(),
{
    let mut i = from;
    while i < chars.len() && chars[i] != c
        invariant
            from <= i <= chars@.len(),
            forall|j: int| from <= j < i ==> chars@[j] != c,
        decreases chars.len() - i,
    {
        i = i + 1;
    }
    proof {
        lemma_first_index_is(chars@.skip(from as int), c, i - from);
    }
    i
}

/// The answer of a quiz on the skin named `formatted_name`.
pub fn quiz_answer(formatted_name: &str) -> (r: String)
    requires
        formatted_name@.contains('|'),
    ensures
        r@ == quiz_answer_text(formatted_name@),
{
    let chars = chars_of(formatted_name);
    let first = find_char(&chars, '|', 0);
    proof {
        assert(chars@.skip(0) =~= chars@);
        lemma_first_index_of(chars@, '|');
        assert(chars@.contains('|'));
        let k = choose|k: int| 0 <= k < chars@.len() && chars@[k] == '|';
        if k < first_index_of(chars@, '|') {
            assert(chars@[k] != '|');
        }
        assert(first < chars@.len());
        assert(chars@.len() == chars.len());
    }
    let second = find_char(&chars, '|', first + 1);
    let mut part: Vec<char> = Vec::new();
    let mut i = first + 1;
    while i < second
        invariant
            first + 1 <= i <= second <= chars@.len(),
            part@ == chars@.subrange(first + 1, i as int),
        decreases second - i,
    {
        part.push(chars[i]);
        assert(chars@.subrange(first + 1, i + 1) =~= chars@.subrange(first + 1, i as int).push(chars@[i as int]));
        i = i + 1;
    }
    proof {
        let rest = chars@.skip(first + 1);
        assert(part@ =~= rest.take(first_index_of(rest, '|')));
    }
    let trimmed_part = trim_chars(&part);
    let text = string_from_chars(&trimmed_part);
    str_to_lowercase(text.as_str())
}

/// The question of a quiz on a skin: the embed's title, description and
/// image, and the expected answer.
#[derive(Debug)]
pub struct QuizQuestion {
    pub title: String,
    pub description: String,
    pub image: String,
    pub answer: String,
}

/// The question of a quiz on `skin`, whose name holds a `|`.
pub fn quiz_question(skin: &Skin) -> (q: QuizQuestion)
    requires
        skin.formatted_name@.contains('|'),
    ensures
        q.title@ == "Guess the skin!"@,
        q.description@ == "Reply with the name of the skin within 10 seconds!\nDo **not** include the wear or the weapon name!"@,
        q.image == skin.image_urls@[0],
        q.answer@ == quiz_answer_text(skin.formatted_name@),
{
    QuizQuestion {
        title: "Guess the skin!".to_owned(),
        description: "Reply with the name of the skin within 10 seconds!\nDo **not** include the wear or the weapon name!".to_owned(),
        image: skin.image_urls[0].clone(),
        answer: quiz_answer(skin.formatted_name.as_str()),
    }
}

/// A user's guess as it is compared with the answer: trimmed of surrounding
/// whitespace and lowercased.
pub fn normalize_guess(guess: &str) -> (r: String)
    ensures
        r@ == lowercase_of(trimmed(guess@)),
{
    let kept = trim_chars(&chars_of(guess));
    let text = string_from_chars(&kept);
    str_to_lowercase(text.as_str())
}

/// The end of a quiz: the reply and what the user gets back, in cents.
#[derive(Debug)]
pub struct QuizOutcome {
    pub reply: Reply,
    pub payout: u64,
}

/// The end of a quiz with the given answer: the guess was right, wrong, or
/// did not come in time (none). A right guess pays back the price and the
/// reward.
pub fn quiz_outcome(answer: &str, guess_correct: Option<bool>) -> (r: QuizOutcome)
    ensures
        guess_correct == Some(true) ==> r.reply is Success && r.reply.text()
            == "You guessed **correctly!** You win **$5**"@ && r.payout == QUIZ_PRICE + QUIZ_REWARD,
        guess_correct == Some(false) ==> r.reply is Error && r.reply.text()
            == "You guessed **incorrectly!** The correct answer was `"@ + answer@ + "`"@ && r.payout
            == 0,
        guess_correct is None ==> r.reply is Error && r.reply.text()
            == "You **failed** to respond within 10 seconds! The correct answer was `"@ + answer@
            + "`"@ && r.payout == 0,
{
    match guess_correct {
        Some(true) => QuizOutcome {
            reply: Reply::Success("You guessed **correctly!** You win **$5**".to_owned()),
            payout: QUIZ_PRICE + QUIZ_REWARD,
        },
        Some(false) => {
            let mut m = "You guessed **incorrectly!** The correct answer was `".to_owned();
            m.append(answer);
            m.append("`");
            QuizOutcome { reply: Reply::Error(m), payout: 0 }
        },
        None => {
            let mut m = "You **failed** to respond within 10 seconds! The correct answer was `".to_owned();
            m.append(answer);
            m.append("`");
            QuizOutcome { reply: Reply::Error(m), payout: 0 }
        },
    }
}

} // verus!
