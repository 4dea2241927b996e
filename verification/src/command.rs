//! The commands an operator gives to the node.

use vstd::prelude::*;
use vstd::string::StringExecFns;
use crate::consignment::Consignment;
use crate::ident::{contract_id_text, ContractId};

verus! {

/// What an operator can ask of the node.
#[derive(Debug, PartialEq, Eq)]
pub enum Command {
    /// Add a contract to the node.
    Register { contract: Consignment },
    /// List the ids of all known contracts.
    Contracts,
    /// Query the state of a contract.
    State { contract_id: ContractId },
    /// Request the source of a contract.
    Contract { contract_id: ContractId },
}

impl Command {
    /// The text of the line that announces the command.
    pub open spec fn spec_action_string(self) -> Seq<char> {
        match self {
            Command::Register { contract } => "Registering contract "@ + contract_id_text(
                contract@.genesis.contract_id,
            ),
            Command::Contracts => "Listring contracts"@,
            Command::State { contract_id } => "Quering state of "@ + contract_id_text(contract_id),
            Command::Contract { contract_id } => "Retrieving contract source for "@
                + contract_id_text(contract_id),
        }
    }

    /// The line that announces the command.
    pub fn action_string(&self) -> (s: String)
        ensures
            s@ == self.spec_action_string(),
    {
        match self {
            Command::Register { contract } => {
                let mut s = "Registering contract ".to_owned();
                s.append(contract.contract_id().to_text().as_str());
                s
            },
            Command::Contracts => "Listring contracts".to_owned(),
            Command::State { contract_id } => {
                let mut s = "Quering state of ".to_owned();
                s.append(contract_id.to_text().as_str());
                s
            },
            Command::Contract { contract_id } => {
                let mut s = "Retrieving contract source for ".to_owned();
                s.append(contract_id.to_text().as_str());
                s
            },
        }
    }
}

} // verus!
