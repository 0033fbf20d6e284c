//! Validation of PEFT adapter configurations.

use crate::error::{Fault, Result, SurgeryError};
use crate::numerics::Numerics;
use crate::text::same_text;
use vstd::prelude::*;

verus! {

/// Controls how bias tensors are handled during merge.
#[derive(Clone, Copy, PartialEq, Eq, Structural, Debug)]
pub enum BiasMode {
    /// No bias tensors in the adapter.
    NoBias,
    /// Bias tensors for target modules only.
    LoraOnly,
    /// Bias tensors for all modules.
    All,
}

/// The mode of a configuration that names none.
pub fn default_bias() -> (r: BiasMode)
    ensures
        r == BiasMode::NoBias,
{
    BiasMode::NoBias
}

/// A PEFT adapter configuration that was found valid, with its alpha as a number of type `T`.
#[derive(Debug)]
pub struct AdapterConfig<T> {
    r: u32,
    lora_alpha: T,
    target_modules: Vec<String>,
    fan_in_fan_out: bool,
    bias: BiasMode,
    modules_to_save: Option<Vec<String>>,
}

/// What a configuration says.
#[verifier::ext_equal]
pub struct Settings<T> {
    pub rank: u32,
    pub alpha: T,
    pub target_modules: Seq<String>,
    pub fan_in_fan_out: bool,
    pub bias: BiasMode,
    pub modules_to_save: Option<Seq<String>>,
}

impl<T> View for AdapterConfig<T> {
    type V = Settings<T>;

    closed spec fn view(&self) -> Settings<T> {
        Settings {
            rank: self.r,
            alpha: self.lora_alpha,
            target_modules: self.target_modules@,
            fan_in_fan_out: self.fan_in_fan_out,
            bias: self.bias,
            modules_to_save: match self.modules_to_save {
                Some(modules) => Some(modules@),
                None => None,
            },
        }
    }
}

/// What keeps a configuration from being valid: another kind of adapter than LoRA, or no rank.
pub open spec fn config_fault(rank: u32, peft_type: Seq<char>) -> Option<Fault> {
    if peft_type != "LORA"@ {
        Some(
            Fault::InvalidConfig(
                "unsupported peft_type '"@ + peft_type + "', expected 'LORA'"@,
            ),
        )
    } else if rank == 0 {
        Some(Fault::InvalidConfig("rank (r) must be greater than zero"@))
    } else {
        None
    }
}

impl<T> AdapterConfig<T> {
    #[verifier::type_invariant]
    spec fn ranked(self) -> bool {
        self.r > 0
    }

    /// Validates what a configuration file says. Rejects non-LORA peft types and rank zero.
    pub fn from_fields(
        r: u32,
        lora_alpha: T,
        target_modules: Vec<String>,
        fan_in_fan_out: bool,
        bias: BiasMode,
        modules_to_save: Option<Vec<String>>,
        peft_type: &str,
    ) -> (config: Result<AdapterConfig<T>>)
        ensures
            match config {
                Ok(config) => config_fault(r, peft_type@) is None && config@ == (Settings {
                    rank: r,
                    alpha: lora_alpha,
                    target_modules: target_modules@,
                    fan_in_fan_out,
                    bias,
                    modules_to_save: match modules_to_save {
                        Some(modules) => Some(modules@),
                        None => None,
                    },
                }),
                Err(error) => config_fault(r, peft_type@) == Some(error@),
            },
    {
        if !same_text(peft_type, "LORA") {
            let mut text = String::new();
            text.append("unsupported peft_type '");
            text.append(peft_type);
            text.append("', expected 'LORA'");
            assert(text@ =~= "unsupported peft_type '"@ + peft_type@ + "', expected 'LORA'"@);
            return Err(SurgeryError::InvalidConfig(text));
        }
        if r == 0 {
            return Err(
                SurgeryError::InvalidConfig("rank (r) must be greater than zero".to_owned()),
            );
        }
        Ok(
            AdapterConfig { r, lora_alpha, target_modules, fan_in_fan_out, bias, modules_to_save },
        )
    }

    /// Returns the LoRA rank.
    pub fn rank(&self) -> (r: u32)
        ensures
            r == self@.rank,
            r > 0,
    {
        proof {
            use_type_invariant(self);
        }
        self.r
    }

    /// Returns the LoRA alpha value.
    pub fn alpha(&self) -> (r: &T)
        ensures
            *r == self@.alpha,
    {
        &self.lora_alpha
    }

    /// Returns the scaling coefficient `alpha / r`.
    #[must_use]
    pub fn scaling<N: Numerics<Single = T>>(&self, num: &N) -> (r: T)
        ensures
            call_ensures(N::quotient, (num, &self@.alpha, self@.rank), r),
    {
        num.quotient(&self.lora_alpha, self.r)
    }

    /// Returns the target module names for LoRA application.
    pub fn target_modules(&self) -> (r: &[String])
        ensures
            r@ == self@.target_modules,
    {
        self.target_modules.as_slice()
    }

    /// Returns whether Conv1D-style transposition is enabled.
    pub fn fan_in_fan_out(&self) -> (r: bool)
        ensures
            r == self@.fan_in_fan_out,
    {
        self.fan_in_fan_out
    }

    /// Returns the bias handling mode.
    pub fn bias(&self) -> (r: &BiasMode)
        ensures
            *r == self@.bias,
    {
        &self.bias
    }

    /// Returns modules whose weights are fully replaced (not low-rank merged).
    pub fn modules_to_save(&self) -> (r: Option<&[String]>)
        ensures
            r is Some <==> self@.modules_to_save is Some,
            r matches Some(modules) ==> self@.modules_to_save == Some(modules@),
    {
        match &self.modules_to_save {
            Some(modules) => Some(modules.as_slice()),
            None => None,
        }
    }
}

} // verus!
