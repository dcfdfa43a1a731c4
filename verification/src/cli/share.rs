//! What the share commands do, ask and tell.

use vstd::prelude::*;

use crate::cli::grammar::{Cli, CliView};
use crate::cli::lines::{numbered, share_lines, share_told, single};
use crate::cli::verbs::Verb;
use crate::clock::instant_after;
use crate::error::{fault_of, Error};
use crate::locked_files::{file_place, files_wf, LockedFileRowView, LockedFiles};
use crate::numbers::integer_text;
use crate::pin::{
    entered, four_digits, fresh_pin, key_under, pin_place, pins_wf, prompt_due, set_pin,
    verification_required, verify_pin, PinRowView, PinTable, ResourceType,
};
use crate::sharing::{
    create_credential_share, create_file_share, credential_share_id_for_token,
    file_share_id_for_token, handed_out, may_be_refused, next_share_id, redeem_credential_share,
    redeem_file_share, redeemed, revoke_credential_share, revoke_file_share, revoked_share,
    shares_wf, token_place, uses_countable, Share, ShareRowView, ShareTable,
};
use crate::text::text_views;

pub use crate::sharing::ShareKind;

use crate::vault::{credential_place, vault_wf, CredentialRowView, Vault};

verus! {

/// How long a PIN that was entered is not asked for again.
pub const PIN_TTL_SECONDS: i64 = 3600;

/// How long a share lasts, where the command line does not say.
pub const SHARE_TTL_SECONDS: i64 = 3600;

/// Sets a PIN that is asked for once in an hour.
pub fn set_default_pin(
    pins: &mut PinTable,
    resource_type: ResourceType,
    resource_id: i64,
    pin: &str,
) -> (r: Result<(), Error>)
    requires
        pins_wf(old(pins)@),
    ensures
        pins_wf(final(pins)@),
        fault_of(r) == (if four_digits(pin@) {
            None
        } else {
            Some(Error::InvalidPin)
        }),
        pin_was_set(
            old(pins)@,
            final(pins)@,
            resource_type,
            resource_id,
            pin@,
            false,
        ),
{
    set_pin(pins, resource_type, resource_id, pin, false, PIN_TTL_SECONDS)
}

/// The PINs after one was set, if it could be.
pub open spec fn pin_was_set(
    before: Seq<PinRowView>,
    after: Seq<PinRowView>,
    resource_type: ResourceType,
    resource_id: i64,
    pin: Seq<char>,
    every_use: bool,
) -> bool {
    if four_digits(pin) {
        exists|row: PinRowView|
            {
                &&& #[trigger] fresh_pin(
                    row,
                    resource_type,
                    resource_id,
                    pin,
                    every_use,
                    PIN_TTL_SECONDS,
                )
                &&& after == (match pin_place(before, resource_type, resource_id) {
                    Some(i) => before.update(i, row),
                    None => before.push(row),
                })
            }
    } else {
        after == before
    }
}

impl ShareKind {
    pub open spec fn resource(self) -> ResourceType {
        match self {
            ShareKind::Credential => ResourceType::CredentialShare,
            ShareKind::File => ResourceType::FileShare,
        }
    }

    fn pin_resource(self) -> (r: ResourceType)
        ensures
            r == self.resource(),
    {
        match self {
            ShareKind::Credential => ResourceType::CredentialShare,
            ShareKind::File => ResourceType::FileShare,
        }
    }

    pub open spec fn token_prompt(self) -> Seq<char> {
        match self {
            ShareKind::Credential => "Credential share token: "@,
            ShareKind::File => "File share token: "@,
        }
    }

    pub open spec fn redeemed_text(self) -> Seq<char> {
        match self {
            ShareKind::Credential => "Redeemed credential "@,
            ShareKind::File => "Redeemed file "@,
        }
    }

    pub open spec fn revoked_text(self) -> Seq<char> {
        match self {
            ShareKind::Credential => "Revoked credential share "@,
            ShareKind::File => "Revoked file share "@,
        }
    }
}

/// A share command.
#[derive(Clone, Copy, PartialEq, Eq, Debug, Structural)]
pub enum ShareCommand {
    Create {
        kind: ShareKind,
        resource_id: i64,
        ttl_seconds: i64,
        max_uses: Option<i64>,
        pin: bool,
        pin_required_every_use: bool,
    },
    Redeem { kind: ShareKind },
    Revoke { kind: ShareKind, share_id: i64 },
}

/// A number that an argument is, or another one where it is not given.
pub open spec fn number_or(cli: CliView, name: Seq<char>, other: i64) -> i64 {
    match cli.number(name) {
        Some(n) => n as i64,
        None => other,
    }
}

/// The command that makes a share.
pub open spec fn create_command(cli: CliView, kind: ShareKind, name: Seq<char>) -> Option<
    ShareCommand,
> {
    match cli.number(name) {
        Some(id) => Some(
            ShareCommand::Create {
                kind,
                resource_id: id as i64,
                ttl_seconds: number_or(cli, "ttl-seconds"@, SHARE_TTL_SECONDS),
                max_uses: match cli.number("max-uses"@) {
                    Some(n) => Some(n as i64),
                    None => None,
                },
                pin: cli.has("pin"@),
                pin_required_every_use: cli.has("pin-required-every-use"@),
            },
        ),
        None => None,
    }
}

/// The command that ends a share.
pub open spec fn revoke_command(cli: CliView, kind: ShareKind) -> Option<ShareCommand> {
    match cli.number("share-id"@) {
        Some(id) => Some(ShareCommand::Revoke { kind, share_id: id as i64 }),
        None => None,
    }
}

/// The share command that a command line says, if it says one.
pub open spec fn share_command_of(cli: CliView) -> Option<ShareCommand> {
    match cli.verb {
        Verb::ShareCreateCredential => create_command(
            cli,
            ShareKind::Credential,
            "credential-id"@,
        ),
        Verb::ShareCreateFile => create_command(cli, ShareKind::File, "file-id"@),
        Verb::ShareRedeemCredential => Some(ShareCommand::Redeem { kind: ShareKind::Credential }),
        Verb::ShareRedeemFile => Some(ShareCommand::Redeem { kind: ShareKind::File }),
        Verb::ShareRevokeCredential => revoke_command(cli, ShareKind::Credential),
        Verb::ShareRevokeFile => revoke_command(cli, ShareKind::File),
        _ => None,
    }
}

fn read_create(cli: &Cli, kind: ShareKind, name: &str) -> (r: Option<ShareCommand>)
    ensures
        r == create_command(cli@, kind, name@),
{
    let resource_id: i64 = match cli.number(name) {
        Some(id) => id,
        None => return None,
    };
    let ttl_seconds: i64 = match cli.number("ttl-seconds") {
        Some(n) => n,
        None => SHARE_TTL_SECONDS,
    };
    Some(
        ShareCommand::Create {
            kind,
            resource_id,
            ttl_seconds,
            max_uses: cli.number("max-uses"),
            pin: cli.has("pin"),
            pin_required_every_use: cli.has("pin-required-every-use"),
        },
    )
}

fn read_revoke(cli: &Cli, kind: ShareKind) -> (r: Option<ShareCommand>)
    ensures
        r == revoke_command(cli@, kind),
{
    match cli.number("share-id") {
        Some(share_id) => Some(ShareCommand::Revoke { kind, share_id }),
        None => None,
    }
}

/// The share command that a command line says, if it says one.
pub fn share_command(cli: &Cli) -> (r: Option<ShareCommand>)
    ensures
        r == share_command_of(cli@),
{
    match cli.verb {
        Verb::ShareCreateCredential => read_create(cli, ShareKind::Credential, "credential-id"),
        Verb::ShareCreateFile => read_create(cli, ShareKind::File, "file-id"),
        Verb::ShareRedeemCredential => Some(ShareCommand::Redeem { kind: ShareKind::Credential }),
        Verb::ShareRedeemFile => Some(ShareCommand::Redeem { kind: ShareKind::File }),
        Verb::ShareRevokeCredential => read_revoke(cli, ShareKind::Credential),
        Verb::ShareRevokeFile => read_revoke(cli, ShareKind::File),
        _ => None,
    }
}

/// The tables that the share commands work on.
#[derive(Debug)]
pub struct ShareDesk {
    pub vault: Vault,
    pub files: LockedFiles,
    pub credential_shares: ShareTable,
    pub file_shares: ShareTable,
    pub pins: PinTable,
}

#[verifier::ext_equal]
pub struct ShareDeskView {
    pub vault: Seq<CredentialRowView>,
    pub files: Seq<LockedFileRowView>,
    pub credential_shares: Seq<ShareRowView>,
    pub file_shares: Seq<ShareRowView>,
    pub pins: Seq<PinRowView>,
}

impl View for ShareDesk {
    type V = ShareDeskView;

    open spec fn view(&self) -> ShareDeskView {
        ShareDeskView {
            vault: self.vault@,
            files: self.files@,
            credential_shares: self.credential_shares@,
            file_shares: self.file_shares@,
            pins: self.pins@,
        }
    }
}

impl ShareDeskView {
    pub open spec fn wf(self) -> bool {
        &&& vault_wf(self.vault)
        &&& files_wf(self.files)
        &&& shares_wf(self.credential_shares)
        &&& shares_wf(self.file_shares)
        &&& pins_wf(self.pins)
    }

    /// Ids and uses can be counted on.
    pub open spec fn countable(self) -> bool {
        &&& next_share_id(self.credential_shares) <= i64::MAX
        &&& next_share_id(self.file_shares) <= i64::MAX
        &&& uses_countable(self.credential_shares)
        &&& uses_countable(self.file_shares)
    }

    pub open spec fn shares(self, kind: ShareKind) -> Seq<ShareRowView> {
        match kind {
            ShareKind::Credential => self.credential_shares,
            ShareKind::File => self.file_shares,
        }
    }

    pub open spec fn with_shares(self, kind: ShareKind, rows: Seq<ShareRowView>) -> ShareDeskView {
        match kind {
            ShareKind::Credential => ShareDeskView { credential_shares: rows, ..self },
            ShareKind::File => ShareDeskView { file_shares: rows, ..self },
        }
    }

    pub open spec fn with_pins(self, rows: Seq<PinRowView>) -> ShareDeskView {
        ShareDeskView { pins: rows, ..self }
    }

    /// The resource that is to be shared exists.
    pub open spec fn has_resource(self, kind: ShareKind, id: i64) -> bool {
        match kind {
            ShareKind::Credential => credential_place(self.vault, id) is Some,
            ShareKind::File => file_place(self.files, id) is Some,
        }
    }
}

/// What an answer is waited for with.
#[derive(Debug)]
pub enum SharePending {
    /// The PIN of a share that was just made.
    NewPin { kind: ShareKind, share: Share, every_use: bool },
    /// The token of a share.
    Token { kind: ShareKind },
    /// The PIN of a share whose token was entered.
    Pin { kind: ShareKind, token: String, share_id: i64 },
}

/// What comes next: a secret is asked for, or the command is done and something
/// is told.
#[derive(Debug)]
pub enum ShareStep {
    Ask { prompt: &'static str, then: SharePending },
    Say { lines: Vec<String> },
}

/// The step asks for the PIN of a new share.
pub open spec fn asks_new_pin(step: ShareStep, kind: ShareKind, of: Share, always: bool) -> bool {
    step matches ShareStep::Ask { prompt, then } && prompt@ == "Set a 4-digit PIN for this share: "@
        && (then matches SharePending::NewPin { kind: k, share, every_use } && k == kind && share
        == of && every_use == always)
}

/// The step asks for a token.
pub open spec fn asks_token(step: ShareStep, kind: ShareKind) -> bool {
    step matches ShareStep::Ask { prompt, then } && prompt@ == kind.token_prompt() && (then
        matches SharePending::Token { kind: k } && k == kind)
}

/// The step asks for the PIN of a share.
pub open spec fn asks_pin(step: ShareStep, kind: ShareKind, entered: Seq<char>, id: i64) -> bool {
    step matches ShareStep::Ask { prompt, then } && prompt@ == "PIN: "@ && (then
        matches SharePending::Pin { kind: k, token, share_id } && k == kind && token@ == entered
        && share_id == id)
}

/// The step tells lines.
pub open spec fn tells(step: ShareStep, told: Seq<Seq<char>>) -> bool {
    step matches ShareStep::Say { lines } && text_views(lines@) == told
}

/// The tables are those after a share was made, and the step goes on with it.
pub open spec fn made(
    before: ShareDeskView,
    after: ShareDeskView,
    step: ShareStep,
    command: ShareCommand,
    share: Share,
    now: i64,
) -> bool {
    command matches ShareCommand::Create {
        kind,
        resource_id,
        ttl_seconds,
        max_uses,
        pin,
        pin_required_every_use,
    } && {
        let rows = after.shares(kind);
        &&& share.id == next_share_id(before.shares(kind))
        &&& rows == before.shares(kind).push(rows.last())
        &&& after == before.with_shares(kind, rows)
        &&& handed_out(rows, share, resource_id, ttl_seconds, max_uses, now)
        &&& if pin {
            asks_new_pin(step, kind, share, pin_required_every_use)
        } else {
            tells(step, share_told(share))
        }
    }
}

fn create(
    desk: &mut ShareDesk,
    kind: ShareKind,
    resource_id: i64,
    ttl_seconds: i64,
    max_uses: Option<i64>,
    now: i64,
) -> (r: Result<Share, Error>)
    requires
        old(desk)@.wf(),
        old(desk)@.countable(),
    ensures
        final(desk)@.wf(),
        !old(desk)@.has_resource(kind, resource_id) ==> r is Err,
        instant_after(now, ttl_seconds) is None ==> r is Err,
        match r {
            Ok(share) => {
                let rows = final(desk)@.shares(kind);
                &&& share.id == next_share_id(old(desk)@.shares(kind))
                &&& rows == old(desk)@.shares(kind).push(rows.last())
                &&& final(desk)@ == old(desk)@.with_shares(kind, rows)
                &&& handed_out(rows, share, resource_id, ttl_seconds, max_uses, now)
            },
            Err(e) => may_be_refused(
                old(desk)@.shares(kind),
                kind,
                old(desk)@.has_resource(kind, resource_id),
                ttl_seconds,
                now,
                e,
            ) && final(desk)@ == old(desk)@,
        },
{
    match kind {
        ShareKind::Credential => create_credential_share(
            &mut desk.credential_shares,
            &desk.vault,
            resource_id,
            ttl_seconds,
            max_uses,
            now,
        ),
        ShareKind::File => create_file_share(
            &mut desk.file_shares,
            &desk.files,
            resource_id,
            ttl_seconds,
            max_uses,
            now,
        ),
    }
}

/// Starts a share command.
///
/// Whether a share is made where others exist rests on the token that is drawn:
/// one whose digest is taken is refused.
pub fn begin_share(desk: &mut ShareDesk, command: &ShareCommand, now: i64) -> (r: Result<
    ShareStep,
    Error,
>)
    requires
        old(desk)@.wf(),
        old(desk)@.countable(),
    ensures
        final(desk)@.wf(),
        match *command {
            ShareCommand::Create { kind, resource_id, ttl_seconds, .. } => {
                &&& !old(desk)@.has_resource(kind, resource_id) ==> r is Err
                &&& instant_after(now, ttl_seconds) is None ==> r is Err
                &&& match r {
                    Ok(step) => exists|share: Share| #[trigger]
                        made(old(desk)@, final(desk)@, step, *command, share, now),
                    Err(e) => may_be_refused(
                        old(desk)@.shares(kind),
                        kind,
                        old(desk)@.has_resource(kind, resource_id),
                        ttl_seconds,
                        now,
                        e,
                    ) && final(desk)@ == old(desk)@,
                }
            },
            ShareCommand::Redeem { kind } => final(desk)@ == old(desk)@ && (r matches Ok(step)
                && asks_token(step, kind)),
            ShareCommand::Revoke { kind, share_id } => {
                &&& final(desk)@ == old(desk)@.with_shares(
                    kind,
                    revoked_share(old(desk)@.shares(kind), share_id, now),
                )
                &&& r matches Ok(step) && tells(
                    step,
                    seq![kind.revoked_text() + integer_text(share_id as int)],
                )
            },
        },
{
    match *command {
        ShareCommand::Create {
            kind,
            resource_id,
            ttl_seconds,
            max_uses,
            pin,
            pin_required_every_use,
        } => {
            let ghost before = desk@;
            match create(desk, kind, resource_id, ttl_seconds, max_uses, now) {
                Err(e) => Err(e),
                Ok(share) => {
                    let ghost of = share;
                    let step = if pin {
                        ShareStep::Ask {
                            prompt: "Set a 4-digit PIN for this share: ",
                            then: SharePending::NewPin {
                                kind,
                                share,
                                every_use: pin_required_every_use,
                            },
                        }
                    } else {
                        ShareStep::Say { lines: share_lines(&share) }
                    };
                    assert(made(before, desk@, step, *command, of, now));
                    Ok(step)
                },
            }
        },
        ShareCommand::Redeem { kind } => {
            let prompt = match kind {
                ShareKind::Credential => "Credential share token: ",
                ShareKind::File => "File share token: ",
            };
            Ok(ShareStep::Ask { prompt, then: SharePending::Token { kind } })
        },
        ShareCommand::Revoke { kind, share_id } => {
            let line = match kind {
                ShareKind::Credential => {
                    revoke_credential_share(&mut desk.credential_shares, share_id, now);
                    numbered("Revoked credential share ", share_id)
                },
                ShareKind::File => {
                    revoke_file_share(&mut desk.file_shares, share_id, now);
                    numbered("Revoked file share ", share_id)
                },
            };
            Ok(ShareStep::Say { lines: single(line) })
        },
    }
}

/// What redeeming a share comes to: the shares, and what is told or refused.
pub open spec fn redeeming(
    before: ShareDeskView,
    after: ShareDeskView,
    r: Result<ShareStep, Error>,
    kind: ShareKind,
    token: Seq<char>,
    now: i64,
) -> bool {
    let (rows, outcome) = redeemed(before.shares(kind), token_place(before.shares(kind), token), now);
    &&& after == before.with_shares(kind, rows)
    &&& match outcome {
        Ok(id) => r matches Ok(step) && tells(
            step,
            seq![kind.redeemed_text() + integer_text(id as int)],
        ),
        Err(e) => fault_of(r) == Some(e),
    }
}

fn redeem(desk: &mut ShareDesk, kind: ShareKind, token: &str, now: i64) -> (r: Result<
    ShareStep,
    Error,
>)
    requires
        old(desk)@.wf(),
        old(desk)@.countable(),
    ensures
        final(desk)@.wf(),
        redeeming(old(desk)@, final(desk)@, r, kind, token@, now),
{
    match kind {
        ShareKind::Credential => match redeem_credential_share(
            &mut desk.credential_shares,
            token,
            now,
        ) {
            Ok(id) => Ok(ShareStep::Say { lines: single(numbered("Redeemed credential ", id)) }),
            Err(e) => Err(e),
        },
        ShareKind::File => match redeem_file_share(&mut desk.file_shares, token, now) {
            Ok(id) => Ok(ShareStep::Say { lines: single(numbered("Redeemed file ", id)) }),
            Err(e) => Err(e),
        },
    }
}

fn share_of_token(desk: &ShareDesk, kind: ShareKind, token: &str) -> (r: Result<i64, Error>)
    requires
        desk@.wf(),
    ensures
        match r {
            Ok(id) => token_place(desk@.shares(kind), token@) matches Some(i) && desk@.shares(
                kind,
            )[i].id == id,
            Err(e) => token_place(desk@.shares(kind), token@) is None && e
                == Error::InvalidShareToken,
        },
{
    match kind {
        ShareKind::Credential => credential_share_id_for_token(&desk.credential_shares, token),
        ShareKind::File => file_share_id_for_token(&desk.file_shares, token),
    }
}

/// What an answer comes to.
pub open spec fn answered(
    before: ShareDeskView,
    after: ShareDeskView,
    r: Result<ShareStep, Error>,
    pending: SharePending,
    answer: Seq<char>,
    now: i64,
) -> bool {
    match pending {
        SharePending::NewPin { kind, share, every_use } => {
            &&& after == before.with_pins(after.pins)
            &&& pin_was_set(before.pins, after.pins, kind.resource(), share.id, answer, every_use)
            &&& if four_digits(answer) {
                r matches Ok(step) && tells(step, share_told(share))
            } else {
                fault_of(r) == Some(Error::InvalidPin)
            }
        },
        SharePending::Token { kind } => match token_place(before.shares(kind), answer) {
            None => after == before && fault_of(r) == Some(Error::InvalidShareToken),
            Some(i) => {
                let id = before.shares(kind)[i].id;
                if prompt_due(before.pins, kind.resource(), id, now) {
                    after == before && (r matches Ok(step) && asks_pin(step, kind, answer, id))
                } else {
                    redeeming(before, after, r, kind, answer, now)
                }
            },
        },
        SharePending::Pin { kind, token, share_id } => {
            let (pins, fault) = entered(
                before.pins,
                kind.resource(),
                share_id,
                key_under(answer),
                now,
            );
            match fault {
                Some(e) => after == before.with_pins(pins) && fault_of(r) == Some(e),
                None => redeeming(before.with_pins(pins), after, r, kind, token@, now),
            }
        },
    }
}

/// Goes on with a share command after an answer.
pub fn answer_share(desk: &mut ShareDesk, pending: SharePending, answer: &str, now: i64) -> (r:
    Result<ShareStep, Error>)
    requires
        old(desk)@.wf(),
        old(desk)@.countable(),
    ensures
        final(desk)@.wf(),
        answered(old(desk)@, final(desk)@, r, pending, answer@, now),
{
    match pending {
        SharePending::NewPin { kind, share, every_use } => {
            match set_pin(
                &mut desk.pins,
                kind.pin_resource(),
                share.id,
                answer,
                every_use,
                PIN_TTL_SECONDS,
            ) {
                Ok(()) => Ok(ShareStep::Say { lines: share_lines(&share) }),
                Err(e) => Err(e),
            }
        },
        SharePending::Token { kind } => {
            let share_id: i64 = match share_of_token(desk, kind, answer) {
                Ok(share_id) => share_id,
                Err(e) => return Err(e),
            };
            if verification_required(&desk.pins, kind.pin_resource(), share_id, now) {
                return Ok(
                    ShareStep::Ask {
                        prompt: "PIN: ",
                        then: SharePending::Pin { kind, token: answer.to_owned(), share_id },
                    },
                );
            }
            redeem(desk, kind, answer, now)
        },
        SharePending::Pin { kind, token, share_id } => {
            match verify_pin(&mut desk.pins, kind.pin_resource(), share_id, answer, now) {
                Ok(()) => redeem(desk, kind, token.as_str(), now),
                Err(e) => Err(e),
            }
        },
    }
}

/// A share that asks for its PIN is redeemed by no token alone: until the PIN is
/// entered, its uses stay as they are.
pub proof fn token_alone_redeems_nothing(
    before: ShareDeskView,
    after: ShareDeskView,
    r: Result<ShareStep, Error>,
    kind: ShareKind,
    token: Seq<char>,
    now: i64,
)
    requires
        answered(before, after, r, SharePending::Token { kind }, token, now),
        token_place(before.shares(kind), token) matches Some(i) && prompt_due(
            before.pins,
            kind.resource(),
            before.shares(kind)[i].id,
            now,
        ),
    ensures
        after == before,
        r matches Ok(ShareStep::Ask { .. }),
{
}

/// Under a wrong PIN a share is not redeemed.
pub proof fn wrong_pin_redeems_nothing(
    before: ShareDeskView,
    after: ShareDeskView,
    r: Result<ShareStep, Error>,
    kind: ShareKind,
    token: String,
    share_id: i64,
    pin: Seq<char>,
    now: i64,
)
    requires
        answered(before, after, r, SharePending::Pin { kind, token, share_id }, pin, now),
        entered(before.pins, kind.resource(), share_id, key_under(pin), now).1 is Some,
    ensures
        after.shares(kind) == before.shares(kind),
        r is Err,
{
}

/// A share that is asked for lasts an hour, where nothing else is said, and is of the
/// resource that is named. Without a resource there is none.
pub proof fn share_is_asked_for(cli: CliView, kind: ShareKind, name: Seq<char>)
    ensures
        cli.number(name) is None ==> create_command(cli, kind, name) is None,
        cli.number(name) matches Some(id) ==> (create_command(cli, kind, name) matches Some(
            ShareCommand::Create {
                kind: k,
                resource_id,
                ttl_seconds,
                max_uses,
                pin,
                pin_required_every_use,
            },
        ) && {
            &&& k == kind
            &&& resource_id == id as i64
            &&& cli.number("ttl-seconds"@) is None ==> ttl_seconds == 3600
            &&& cli.number("ttl-seconds"@) matches Some(n) ==> ttl_seconds == n as i64
            &&& cli.number("max-uses"@) is None ==> max_uses is None
            &&& cli.number("max-uses"@) matches Some(n) ==> max_uses == Some(n as i64)
            &&& pin == cli.has("pin"@)
            &&& pin_required_every_use == cli.has("pin-required-every-use"@)
        }),
{
}

/// Each share command is for the kind of share that it names.
pub proof fn share_commands_name_their_kind(cli: CliView)
    ensures
        cli.verb == Verb::ShareCreateCredential ==> share_command_of(cli) == create_command(
            cli,
            ShareKind::Credential,
            "credential-id"@,
        ),
        cli.verb == Verb::ShareCreateFile ==> share_command_of(cli) == create_command(
            cli,
            ShareKind::File,
            "file-id"@,
        ),
        cli.verb == Verb::ShareRedeemCredential ==> share_command_of(cli) == Some(
            ShareCommand::Redeem { kind: ShareKind::Credential },
        ),
        cli.verb == Verb::ShareRedeemFile ==> share_command_of(cli) == Some(
            ShareCommand::Redeem { kind: ShareKind::File },
        ),
        cli.verb == Verb::ShareRevokeCredential && cli.number("share-id"@) is Some
            ==> share_command_of(cli) == Some(
            ShareCommand::Revoke {
                kind: ShareKind::Credential,
                share_id: cli.number("share-id"@)->0 as i64,
            },
        ),
        cli.verb == Verb::ShareRevokeFile && cli.number("share-id"@) is Some ==> share_command_of(
            cli,
        ) == Some(
            ShareCommand::Revoke {
                kind: ShareKind::File,
                share_id: cli.number("share-id"@)->0 as i64,
            },
        ),
{
}

/// Shares of one kind are not those of the other: what is done to one leaves the other, the
/// credentials and the files as they are.
pub proof fn kinds_of_shares_are_kept_apart(
    desk: ShareDeskView,
    kind: ShareKind,
    rows: Seq<ShareRowView>,
    pins: Seq<PinRowView>,
)
    ensures
        desk.with_shares(kind, rows).shares(kind) == rows,
        kind == ShareKind::Credential ==> desk.with_shares(kind, rows).file_shares
            == desk.file_shares,
        kind == ShareKind::File ==> desk.with_shares(kind, rows).credential_shares
            == desk.credential_shares,
        desk.with_shares(kind, rows).vault == desk.vault,
        desk.with_shares(kind, rows).files == desk.files,
        desk.with_shares(kind, rows).pins == desk.pins,
        desk.with_pins(pins).pins == pins,
        desk.with_pins(pins).shares(kind) == desk.shares(kind),
        desk.with_pins(pins).vault == desk.vault,
        desk.with_pins(pins).files == desk.files,
        ShareKind::Credential.resource() == ResourceType::CredentialShare,
        ShareKind::File.resource() == ResourceType::FileShare,
        desk.shares(ShareKind::Credential) == desk.credential_shares,
        desk.shares(ShareKind::File) == desk.file_shares,
{
}

/// Whatever an answer comes to, credentials and files stay, and so do the shares of the
/// other kind.
pub proof fn answers_touch_one_kind(
    before: ShareDeskView,
    after: ShareDeskView,
    r: Result<ShareStep, Error>,
    pending: SharePending,
    answer: Seq<char>,
    now: i64,
)
    requires
        answered(before, after, r, pending, answer, now),
    ensures
        after.vault == before.vault,
        after.files == before.files,
        pending is NewPin ==> after.credential_shares == before.credential_shares
            && after.file_shares == before.file_shares,
        pending is Token ==> after.pins == before.pins,
        (pending matches SharePending::Token { kind } && kind == ShareKind::Credential)
            ==> after.file_shares == before.file_shares,
        (pending matches SharePending::Token { kind } && kind == ShareKind::File)
            ==> after.credential_shares == before.credential_shares,
        (pending matches SharePending::Pin { kind, .. } && kind == ShareKind::Credential)
            ==> after.file_shares == before.file_shares,
        (pending matches SharePending::Pin { kind, .. } && kind == ShareKind::File)
            ==> after.credential_shares == before.credential_shares,
{
}

/// A share without a PIN that is due is redeemed by its token, and one whose PIN was entered
/// rightly too: it is then used once more, exactly as its own limits allow.
pub proof fn right_answers_redeem(
    before: ShareDeskView,
    after: ShareDeskView,
    r: Result<ShareStep, Error>,
    kind: ShareKind,
    token: Seq<char>,
    now: i64,
)
    requires
        answered(before, after, r, SharePending::Token { kind }, token, now),
        token_place(before.shares(kind), token) matches Some(i) && !prompt_due(
            before.pins,
            kind.resource(),
            before.shares(kind)[i].id,
            now,
        ),
    ensures
        after.shares(kind) == redeemed(
            before.shares(kind),
            token_place(before.shares(kind), token),
            now,
        ).0,
        r is Ok <==> redeemed(
            before.shares(kind),
            token_place(before.shares(kind), token),
            now,
        ).1 is Ok,
{
}

/// What is to be shared is there exactly if a credential or a file has the id.
pub proof fn shared_resource_is_there(desk: ShareDeskView, id: i64)
    ensures
        desk.has_resource(ShareKind::Credential, id) <==> exists|i: int|
            0 <= i < desk.vault.len() && (#[trigger] desk.vault[i]).id == id,
        desk.has_resource(ShareKind::File, id) <==> exists|i: int|
            0 <= i < desk.files.len() && (#[trigger] desk.files[i]).id == id,
{
}

/// A share that was made is the last of its kind, and its token is told unless a PIN is to
/// be set first.
pub proof fn made_share_is_told(
    before: ShareDeskView,
    after: ShareDeskView,
    step: ShareStep,
    command: ShareCommand,
    share: Share,
    now: i64,
)
    requires
        made(before, after, step, command, share, now),
    ensures
        command matches ShareCommand::Create {
            kind,
            resource_id,
            ttl_seconds,
            max_uses,
            pin,
            pin_required_every_use,
        } && {
            &&& after.shares(kind).len() == before.shares(kind).len() + 1
            &&& after.shares(kind).drop_last() == before.shares(kind)
            &&& handed_out(after.shares(kind), share, resource_id, ttl_seconds, max_uses, now)
            &&& after.vault == before.vault
            &&& after.files == before.files
            &&& after.pins == before.pins
            &&& step is Ask <==> pin
            &&& pin ==> asks_new_pin(step, kind, share, pin_required_every_use)
            &&& !pin ==> tells(step, share_told(share))
        },
{
    if let ShareCommand::Create { kind, .. } = command {
        assert(after.shares(kind).drop_last() =~= before.shares(kind));
    }
}

/// A PIN that is set for a share has no attempts against it and no lock, is asked for at
/// every use or once in an hour, and takes the place of the one before. Other PINs stay.
pub proof fn pin_of_a_share_is_set(
    before: Seq<PinRowView>,
    after: Seq<PinRowView>,
    resource_type: ResourceType,
    resource_id: i64,
    pin: Seq<char>,
    every_use: bool,
)
    requires
        pins_wf(before),
        pin_was_set(before, after, resource_type, resource_id, pin, every_use),
        four_digits(pin),
    ensures
        exists|k: int|
            0 <= k < after.len() && {
                &&& (#[trigger] after[k]).is_for(resource_type, resource_id)
                &&& after[k].require_every_use == every_use
                &&& after[k].ttl_seconds == 3600
                &&& after[k].attempt_count == 0
                &&& after[k].locked_at is None
                &&& after[k].unlocked_until is None
            },
        forall|i: int|
            0 <= i < before.len() && !(#[trigger] before[i]).is_for(resource_type, resource_id)
                ==> after[i] == before[i],
{
    let row = choose|row: PinRowView|
        {
            &&& #[trigger] fresh_pin(
                row,
                resource_type,
                resource_id,
                pin,
                every_use,
                PIN_TTL_SECONDS,
            )
            &&& after == (match pin_place(before, resource_type, resource_id) {
                Some(i) => before.update(i, row),
                None => before.push(row),
            })
        };
    match pin_place(before, resource_type, resource_id) {
        Some(i) => {
            assert(before[i].is_for(resource_type, resource_id));
            assert(after[i] == row);
        },
        None => {
            assert(after[before.len() as int] == row);
        },
    }
}

/// A PIN that is not four digits is not set.
pub proof fn other_pins_are_not_set(
    before: Seq<PinRowView>,
    after: Seq<PinRowView>,
    resource_type: ResourceType,
    resource_id: i64,
    pin: Seq<char>,
    every_use: bool,
)
    requires
        pin_was_set(before, after, resource_type, resource_id, pin, every_use),
        pin.len() != 4 || exists|i: int| 0 <= i < pin.len() && !('0' <= #[trigger] pin[i] <= '9'),
    ensures
        after == before,
{
}

/// A step that tells something is done, and one that asks waits for an answer of the kind
/// that it asks for.
pub proof fn steps_ask_or_tell(
    step: ShareStep,
    kind: ShareKind,
    share: Share,
    token: Seq<char>,
    id: i64,
    told: Seq<Seq<char>>,
    always: bool,
)
    ensures
        tells(step, told) ==> (step matches ShareStep::Say { lines } && text_views(lines@) == told),
        asks_token(step, kind) ==> (step matches ShareStep::Ask {
            prompt,
            then: SharePending::Token { kind: k },
        } && k == kind && prompt@ == (if kind == ShareKind::Credential {
            "Credential share token: "@
        } else {
            "File share token: "@
        })),
        asks_pin(step, kind, token, id) ==> (step matches ShareStep::Ask {
            prompt,
            then: SharePending::Pin { kind: k, token: entered, share_id },
        } && k == kind && entered@ == token && share_id == id && prompt@ == "PIN: "@),
        asks_new_pin(step, kind, share, always) ==> (step matches ShareStep::Ask {
            prompt,
            then: SharePending::NewPin { kind: k, share: of, every_use },
        } && k == kind && of == share && every_use == always),
{
}

/// What redeeming comes to is told of the kind that was redeemed, with the resource's id.
pub proof fn redeeming_tells_the_resource(
    before: ShareDeskView,
    after: ShareDeskView,
    r: Result<ShareStep, Error>,
    kind: ShareKind,
    token: Seq<char>,
    now: i64,
)
    requires
        redeeming(before, after, r, kind, token, now),
    ensures
        ({
            let outcome = redeemed(
                before.shares(kind),
                token_place(before.shares(kind), token),
                now,
            ).1;
            &&& outcome matches Ok(id) ==> (r matches Ok(ShareStep::Say { lines }) && text_views(
                lines@,
            ) == seq![
                (if kind == ShareKind::Credential {
                    "Redeemed credential "@
                } else {
                    "Redeemed file "@
                }) + integer_text(id as int),
            ])
            &&& outcome matches Err(e) ==> fault_of(r) == Some(e)
            &&& after.pins == before.pins
        }),
{
}

} // verus!
