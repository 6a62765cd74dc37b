//! Registers, devices and operands of the target machine.
use vstd::prelude::*;
use crate::number::Number;

verus! {

/// Whether a string holds exactly the text of a literal.
pub fn same_text(name: &String, literal: &str) -> (r: bool)
    ensures
        r == (name@ == literal@),
{
    let owned: String = literal.to_owned();
    *name == owned
}

/// A register: sixteen general ones, the program counter `sp` and the return address `ra`.
#[derive(Clone, Copy, Debug, PartialEq, Eq, Hash, Structural)]
pub enum Register {
    R0,
    R1,
    R2,
    R3,
    R4,
    R5,
    R6,
    R7,
    R8,
    R9,
    R10,
    R11,
    R12,
    R13,
    R14,
    R15,
    Sp,
    Ra,
}

impl Register {
    /// The register that a name stands for, if it is one.
    #[verifier::opaque]
    pub open spec fn named(name: Seq<char>) -> Option<Register> {
        if name == "r0"@ {
            Some(Register::R0)
        } else if name == "r1"@ {
            Some(Register::R1)
        } else if name == "r2"@ {
            Some(Register::R2)
        } else if name == "r3"@ {
            Some(Register::R3)
        } else if name == "r4"@ {
            Some(Register::R4)
        } else if name == "r5"@ {
            Some(Register::R5)
        } else if name == "r6"@ {
            Some(Register::R6)
        } else if name == "r7"@ {
            Some(Register::R7)
        } else if name == "r8"@ {
            Some(Register::R8)
        } else if name == "r9"@ {
            Some(Register::R9)
        } else if name == "r10"@ {
            Some(Register::R10)
        } else if name == "r11"@ {
            Some(Register::R11)
        } else if name == "r12"@ {
            Some(Register::R12)
        } else if name == "r13"@ {
            Some(Register::R13)
        } else if name == "r14"@ {
            Some(Register::R14)
        } else if name == "r15"@ {
            Some(Register::R15)
        } else if name == "sp"@ {
            Some(Register::Sp)
        } else if name == "ra"@ {
            Some(Register::Ra)
        } else {
            None
        }
    }

    /// The name of the register in assembly text.
    pub open spec fn text(self) -> Seq<char> {
        match self {
            Register::R0 => "r0"@,
            Register::R1 => "r1"@,
            Register::R2 => "r2"@,
            Register::R3 => "r3"@,
            Register::R4 => "r4"@,
            Register::R5 => "r5"@,
            Register::R6 => "r6"@,
            Register::R7 => "r7"@,
            Register::R8 => "r8"@,
            Register::R9 => "r9"@,
            Register::R10 => "r10"@,
            Register::R11 => "r11"@,
            Register::R12 => "r12"@,
            Register::R13 => "r13"@,
            Register::R14 => "r14"@,
            Register::R15 => "r15"@,
            Register::Sp => "sp"@,
            Register::Ra => "ra"@,
        }
    }

    /// Reads the name of a register.
    pub fn from_name(name: &String) -> (r: Option<Register>)
        ensures
            r == Register::named(name@),
    {
        reveal(Register::named);
        if same_text(name, "r0") {
            Some(Register::R0)
        } else if same_text(name, "r1") {
            Some(Register::R1)
        } else if same_text(name, "r2") {
            Some(Register::R2)
        } else if same_text(name, "r3") {
            Some(Register::R3)
        } else if same_text(name, "r4") {
            Some(Register::R4)
        } else if same_text(name, "r5") {
            Some(Register::R5)
        } else if same_text(name, "r6") {
            Some(Register::R6)
        } else if same_text(name, "r7") {
            Some(Register::R7)
        } else if same_text(name, "r8") {
            Some(Register::R8)
        } else if same_text(name, "r9") {
            Some(Register::R9)
        } else if same_text(name, "r10") {
            Some(Register::R10)
        } else if same_text(name, "r11") {
            Some(Register::R11)
        } else if same_text(name, "r12") {
            Some(Register::R12)
        } else if same_text(name, "r13") {
            Some(Register::R13)
        } else if same_text(name, "r14") {
            Some(Register::R14)
        } else if same_text(name, "r15") {
            Some(Register::R15)
        } else if same_text(name, "sp") {
            Some(Register::Sp)
        } else if same_text(name, "ra") {
            Some(Register::Ra)
        } else {
            None
        }
    }

    /// The name of the register in assembly text.
    pub fn name(&self) -> (r: &'static str)
        ensures
            r@ == self.text(),
    {
        match self {
            Register::R0 => "r0",
            Register::R1 => "r1",
            Register::R2 => "r2",
            Register::R3 => "r3",
            Register::R4 => "r4",
            Register::R5 => "r5",
            Register::R6 => "r6",
            Register::R7 => "r7",
            Register::R8 => "r8",
            Register::R9 => "r9",
            Register::R10 => "r10",
            Register::R11 => "r11",
            Register::R12 => "r12",
            Register::R13 => "r13",
            Register::R14 => "r14",
            Register::R15 => "r15",
            Register::Sp => "sp",
            Register::Ra => "ra",
        }
    }

    /// The general register with the given number, if it is below sixteen.
    pub open spec fn general(index: int) -> Option<Register> {
        if index == 0 {
            Some(Register::R0)
        } else if index == 1 {
            Some(Register::R1)
        } else if index == 2 {
            Some(Register::R2)
        } else if index == 3 {
            Some(Register::R3)
        } else if index == 4 {
            Some(Register::R4)
        } else if index == 5 {
            Some(Register::R5)
        } else if index == 6 {
            Some(Register::R6)
        } else if index == 7 {
            Some(Register::R7)
        } else if index == 8 {
            Some(Register::R8)
        } else if index == 9 {
            Some(Register::R9)
        } else if index == 10 {
            Some(Register::R10)
        } else if index == 11 {
            Some(Register::R11)
        } else if index == 12 {
            Some(Register::R12)
        } else if index == 13 {
            Some(Register::R13)
        } else if index == 14 {
            Some(Register::R14)
        } else if index == 15 {
            Some(Register::R15)
        } else {
            None
        }
    }

    /// The general register with the given number, if it is below sixteen.
    pub fn from_index(index: u8) -> (r: Option<Register>)
        ensures
            r == Register::general(index as int),
    {
        if index == 0 {
            Some(Register::R0)
        } else if index == 1 {
            Some(Register::R1)
        } else if index == 2 {
            Some(Register::R2)
        } else if index == 3 {
            Some(Register::R3)
        } else if index == 4 {
            Some(Register::R4)
        } else if index == 5 {
            Some(Register::R5)
        } else if index == 6 {
            Some(Register::R6)
        } else if index == 7 {
            Some(Register::R7)
        } else if index == 8 {
            Some(Register::R8)
        } else if index == 9 {
            Some(Register::R9)
        } else if index == 10 {
            Some(Register::R10)
        } else if index == 11 {
            Some(Register::R11)
        } else if index == 12 {
            Some(Register::R12)
        } else if index == 13 {
            Some(Register::R13)
        } else if index == 14 {
            Some(Register::R14)
        } else if index == 15 {
            Some(Register::R15)
        } else {
            None
        }
    }

    /// The register's place in the register file: the general registers
    /// first, then `sp`, then `ra`.
    pub open spec fn slot(self) -> int {
        match self {
            Register::R0 => 0,
            Register::R1 => 1,
            Register::R2 => 2,
            Register::R3 => 3,
            Register::R4 => 4,
            Register::R5 => 5,
            Register::R6 => 6,
            Register::R7 => 7,
            Register::R8 => 8,
            Register::R9 => 9,
            Register::R10 => 10,
            Register::R11 => 11,
            Register::R12 => 12,
            Register::R13 => 13,
            Register::R14 => 14,
            Register::R15 => 15,
            Register::Sp => 16,
            Register::Ra => 17,
        }
    }

    /// The register's place in the register file.
    pub fn index(&self) -> (r: usize)
        ensures
            r == self.slot(),
            r < 18,
    {
        match self {
            Register::R0 => 0,
            Register::R1 => 1,
            Register::R2 => 2,
            Register::R3 => 3,
            Register::R4 => 4,
            Register::R5 => 5,
            Register::R6 => 6,
            Register::R7 => 7,
            Register::R8 => 8,
            Register::R9 => 9,
            Register::R10 => 10,
            Register::R11 => 11,
            Register::R12 => 12,
            Register::R13 => 13,
            Register::R14 => 14,
            Register::R15 => 15,
            Register::Sp => 16,
            Register::Ra => 17,
        }
    }
}

/// A device that the program can reach: the one it runs on and six pins.
#[derive(Clone, Copy, Debug, PartialEq, Eq, Hash, Structural)]
pub enum Device {
    Db,
    D0,
    D1,
    D2,
    D3,
    D4,
    D5,
}

impl Device {
    /// The device that a name stands for, if it is one.
    #[verifier::opaque]
    pub open spec fn named(name: Seq<char>) -> Option<Device> {
        if name == "db"@ {
            Some(Device::Db)
        } else if name == "d0"@ {
            Some(Device::D0)
        } else if name == "d1"@ {
            Some(Device::D1)
        } else if name == "d2"@ {
            Some(Device::D2)
        } else if name == "d3"@ {
            Some(Device::D3)
        } else if name == "d4"@ {
            Some(Device::D4)
        } else if name == "d5"@ {
            Some(Device::D5)
        } else {
            None
        }
    }

    /// The name of the device in assembly text.
    pub open spec fn text(self) -> Seq<char> {
        match self {
            Device::Db => "db"@,
            Device::D0 => "d0"@,
            Device::D1 => "d1"@,
            Device::D2 => "d2"@,
            Device::D3 => "d3"@,
            Device::D4 => "d4"@,
            Device::D5 => "d5"@,
        }
    }

    /// Reads the name of a device.
    pub fn from_name(name: &String) -> (r: Option<Device>)
        ensures
            r == Device::named(name@),
    {
        reveal(Device::named);
        if same_text(name, "db") {
            Some(Device::Db)
        } else if same_text(name, "d0") {
            Some(Device::D0)
        } else if same_text(name, "d1") {
            Some(Device::D1)
        } else if same_text(name, "d2") {
            Some(Device::D2)
        } else if same_text(name, "d3") {
            Some(Device::D3)
        } else if same_text(name, "d4") {
            Some(Device::D4)
        } else if same_text(name, "d5") {
            Some(Device::D5)
        } else {
            None
        }
    }

    /// The name of the device in assembly text.
    pub fn name(&self) -> (r: &'static str)
        ensures
            r@ == self.text(),
    {
        match self {
            Device::Db => "db",
            Device::D0 => "d0",
            Device::D1 => "d1",
            Device::D2 => "d2",
            Device::D3 => "d3",
            Device::D4 => "d4",
            Device::D5 => "d5",
        }
    }

    /// The place of the device among the devices, in the order of their declaration.
    pub open spec fn slot(self) -> int {
        match self {
            Device::Db => 0,
            Device::D0 => 1,
            Device::D1 => 2,
            Device::D2 => 3,
            Device::D3 => 4,
            Device::D4 => 5,
            Device::D5 => 6,
        }
    }

    /// The place of the device among the devices.
    pub fn index(&self) -> (r: usize)
        ensures
            r == self.slot(),
            r < 7,
    {
        match self {
            Device::Db => 0,
            Device::D0 => 1,
            Device::D1 => 2,
            Device::D2 => 3,
            Device::D3 => 4,
            Device::D4 => 5,
            Device::D5 => 6,
        }
    }
}

/// An attribute of a device.
#[derive(Clone, Copy, Debug, PartialEq, Eq, Hash, Structural)]
pub enum DeviceVariable {
    Activate,
    AirRelease,
    Charge,
    ClearMemory,
    Color,
    CompletionRatio,
    ElevatorLevel,
    ElevatorSpeed,
    Error,
    ExportCount,
    Filtration,
    Harvest,
    Horizontal,
    HorizontalRatio,
    Idle,
    ImportCount,
    Lock,
    Maximum,
    Mode,
    On,
    Open,
    Output,
    Plant,
    PositionX,
    PositionY,
    Power,
    PowerActual,
    PowerPotential,
    PowerRequired,
    Pressure,
    PressureExternal,
    PressureInternal,
    PressureSetting,
    Quantity,
    Ratio,
    RatioCarbonDioxide,
    RatioNitrogen,
    RatioOxygen,
    RatioPollutant,
    RatioVolatiles,
    RatioWater,
    Reagents,
    RecipeHash,
    RequestHash,
    RequiredPower,
    Setting,
    SolarAngle,
    Temperature,
    TemperatureSettings,
    TotalMoles,
    VelocityMagnitude,
    VelocityRelativeX,
    VelocityRelativeY,
    VelocityRelativeZ,
    Vertical,
    VerticalRatio,
    Volume,
}

impl DeviceVariable {
    /// The device attribute that a name stands for, if it is one.
    #[verifier::opaque]
    pub open spec fn named(name: Seq<char>) -> Option<DeviceVariable> {
        if name == "Activate"@ {
            Some(DeviceVariable::Activate)
        } else if name == "AirRelease"@ {
            Some(DeviceVariable::AirRelease)
        } else if name == "Charge"@ {
            Some(DeviceVariable::Charge)
        } else if name == "ClearMemory"@ {
            Some(DeviceVariable::ClearMemory)
        } else if name == "Color"@ {
            Some(DeviceVariable::Color)
        } else if name == "CompletionRatio"@ {
            Some(DeviceVariable::CompletionRatio)
        } else if name == "ElevatorLevel"@ {
            Some(DeviceVariable::ElevatorLevel)
        } else if name == "ElevatorSpeed"@ {
            Some(DeviceVariable::ElevatorSpeed)
        } else if name == "Error"@ {
            Some(DeviceVariable::Error)
        } else if name == "ExportCount"@ {
            Some(DeviceVariable::ExportCount)
        } else if name == "Filtration"@ {
            Some(DeviceVariable::Filtration)
        } else if name == "Harvest"@ {
            Some(DeviceVariable::Harvest)
        } else if name == "Horizontal"@ {
            Some(DeviceVariable::Horizontal)
        } else if name == "HorizontalRatio"@ {
            Some(DeviceVariable::HorizontalRatio)
        } else if name == "Idle"@ {
            Some(DeviceVariable::Idle)
        } else if name == "ImportCount"@ {
            Some(DeviceVariable::ImportCount)
        } else if name == "Lock"@ {
            Some(DeviceVariable::Lock)
        } else if name == "Maximum"@ {
            Some(DeviceVariable::Maximum)
        } else if name == "Mode"@ {
            Some(DeviceVariable::Mode)
        } else if name == "On"@ {
            Some(DeviceVariable::On)
        } else if name == "Open"@ {
            Some(DeviceVariable::Open)
        } else if name == "Output"@ {
            Some(DeviceVariable::Output)
        } else if name == "Plant"@ {
            Some(DeviceVariable::Plant)
        } else if name == "PositionX"@ {
            Some(DeviceVariable::PositionX)
        } else if name == "PositionY"@ {
            Some(DeviceVariable::PositionY)
        } else if name == "Power"@ {
            Some(DeviceVariable::Power)
        } else if name == "PowerActual"@ {
            Some(DeviceVariable::PowerActual)
        } else if name == "PowerPotential"@ {
            Some(DeviceVariable::PowerPotential)
        } else if name == "PowerRequired"@ {
            Some(DeviceVariable::PowerRequired)
        } else if name == "Pressure"@ {
            Some(DeviceVariable::Pressure)
        } else if name == "PressureExternal"@ {
            Some(DeviceVariable::PressureExternal)
        } else if name == "PressureInternal"@ {
            Some(DeviceVariable::PressureInternal)
        } else if name == "PressureSetting"@ {
            Some(DeviceVariable::PressureSetting)
        } else if name == "Quantity"@ {
            Some(DeviceVariable::Quantity)
        } else if name == "Ratio"@ {
            Some(DeviceVariable::Ratio)
        } else if name == "RatioCarbonDioxide"@ {
            Some(DeviceVariable::RatioCarbonDioxide)
        } else if name == "RatioNitrogen"@ {
            Some(DeviceVariable::RatioNitrogen)
        } else if name == "RatioOxygen"@ {
            Some(DeviceVariable::RatioOxygen)
        } else if name == "RatioPollutant"@ {
            Some(DeviceVariable::RatioPollutant)
        } else if name == "RatioVolatiles"@ {
            Some(DeviceVariable::RatioVolatiles)
        } else if name == "RatioWater"@ {
            Some(DeviceVariable::RatioWater)
        } else if name == "Reagents"@ {
            Some(DeviceVariable::Reagents)
        } else if name == "RecipeHash"@ {
            Some(DeviceVariable::RecipeHash)
        } else if name == "RequestHash"@ {
            Some(DeviceVariable::RequestHash)
        } else if name == "RequiredPower"@ {
            Some(DeviceVariable::RequiredPower)
        } else if name == "Setting"@ {
            Some(DeviceVariable::Setting)
        } else if name == "SolarAngle"@ {
            Some(DeviceVariable::SolarAngle)
        } else if name == "Temperature"@ {
            Some(DeviceVariable::Temperature)
        } else if name == "TemperatureSettings"@ {
            Some(DeviceVariable::TemperatureSettings)
        } else if name == "TotalMoles"@ {
            Some(DeviceVariable::TotalMoles)
        } else if name == "VelocityMagnitude"@ {
            Some(DeviceVariable::VelocityMagnitude)
        } else if name == "VelocityRelativeX"@ {
            Some(DeviceVariable::VelocityRelativeX)
        } else if name == "VelocityRelativeY"@ {
            Some(DeviceVariable::VelocityRelativeY)
        } else if name == "VelocityRelativeZ"@ {
            Some(DeviceVariable::VelocityRelativeZ)
        } else if name == "Vertical"@ {
            Some(DeviceVariable::Vertical)
        } else if name == "VerticalRatio"@ {
            Some(DeviceVariable::VerticalRatio)
        } else if name == "Volume"@ {
            Some(DeviceVariable::Volume)
        } else {
            None
        }
    }

    /// The name of the device attribute in assembly text.
    pub open spec fn text(self) -> Seq<char> {
        match self {
            DeviceVariable::Activate => "Activate"@,
            DeviceVariable::AirRelease => "AirRelease"@,
            DeviceVariable::Charge => "Charge"@,
            DeviceVariable::ClearMemory => "ClearMemory"@,
            DeviceVariable::Color => "Color"@,
            DeviceVariable::CompletionRatio => "CompletionRatio"@,
            DeviceVariable::ElevatorLevel => "ElevatorLevel"@,
            DeviceVariable::ElevatorSpeed => "ElevatorSpeed"@,
            DeviceVariable::Error => "Error"@,
            DeviceVariable::ExportCount => "ExportCount"@,
            DeviceVariable::Filtration => "Filtration"@,
            DeviceVariable::Harvest => "Harvest"@,
            DeviceVariable::Horizontal => "Horizontal"@,
            DeviceVariable::HorizontalRatio => "HorizontalRatio"@,
            DeviceVariable::Idle => "Idle"@,
            DeviceVariable::ImportCount => "ImportCount"@,
            DeviceVariable::Lock => "Lock"@,
            DeviceVariable::Maximum => "Maximum"@,
            DeviceVariable::Mode => "Mode"@,
            DeviceVariable::On => "On"@,
            DeviceVariable::Open => "Open"@,
            DeviceVariable::Output => "Output"@,
            DeviceVariable::Plant => "Plant"@,
            DeviceVariable::PositionX => "PositionX"@,
            DeviceVariable::PositionY => "PositionY"@,
            DeviceVariable::Power => "Power"@,
            DeviceVariable::PowerActual => "PowerActual"@,
            DeviceVariable::PowerPotential => "PowerPotential"@,
            DeviceVariable::PowerRequired => "PowerRequired"@,
            DeviceVariable::Pressure => "Pressure"@,
            DeviceVariable::PressureExternal => "PressureExternal"@,
            DeviceVariable::PressureInternal => "PressureInternal"@,
            DeviceVariable::PressureSetting => "PressureSetting"@,
            DeviceVariable::Quantity => "Quantity"@,
            DeviceVariable::Ratio => "Ratio"@,
            DeviceVariable::RatioCarbonDioxide => "RatioCarbonDioxide"@,
            DeviceVariable::RatioNitrogen => "RatioNitrogen"@,
            DeviceVariable::RatioOxygen => "RatioOxygen"@,
            DeviceVariable::RatioPollutant => "RatioPollutant"@,
            DeviceVariable::RatioVolatiles => "RatioVolatiles"@,
            DeviceVariable::RatioWater => "RatioWater"@,
            DeviceVariable::Reagents => "Reagents"@,
            DeviceVariable::RecipeHash => "RecipeHash"@,
            DeviceVariable::RequestHash => "RequestHash"@,
            DeviceVariable::RequiredPower => "RequiredPower"@,
            DeviceVariable::Setting => "Setting"@,
            DeviceVariable::SolarAngle => "SolarAngle"@,
            DeviceVariable::Temperature => "Temperature"@,
            DeviceVariable::TemperatureSettings => "TemperatureSettings"@,
            DeviceVariable::TotalMoles => "TotalMoles"@,
            DeviceVariable::VelocityMagnitude => "VelocityMagnitude"@,
            DeviceVariable::VelocityRelativeX => "VelocityRelativeX"@,
            DeviceVariable::VelocityRelativeY => "VelocityRelativeY"@,
            DeviceVariable::VelocityRelativeZ => "VelocityRelativeZ"@,
            DeviceVariable::Vertical => "Vertical"@,
            DeviceVariable::VerticalRatio => "VerticalRatio"@,
            DeviceVariable::Volume => "Volume"@,
        }
    }

    /// Reads the name of a device attribute.
    pub fn from_name(name: &String) -> (r: Option<DeviceVariable>)
        ensures
            r == DeviceVariable::named(name@),
    {
        reveal(DeviceVariable::named);
        if same_text(name, "Activate") {
            Some(DeviceVariable::Activate)
        } else if same_text(name, "AirRelease") {
            Some(DeviceVariable::AirRelease)
        } else if same_text(name, "Charge") {
            Some(DeviceVariable::Charge)
        } else if same_text(name, "ClearMemory") {
            Some(DeviceVariable::ClearMemory)
        } else if same_text(name, "Color") {
            Some(DeviceVariable::Color)
        } else if same_text(name, "CompletionRatio") {
            Some(DeviceVariable::CompletionRatio)
        } else if same_text(name, "ElevatorLevel") {
            Some(DeviceVariable::ElevatorLevel)
        } else if same_text(name, "ElevatorSpeed") {
            Some(DeviceVariable::ElevatorSpeed)
        } else if same_text(name, "Error") {
            Some(DeviceVariable::Error)
        } else if same_text(name, "ExportCount") {
            Some(DeviceVariable::ExportCount)
        } else if same_text(name, "Filtration") {
            Some(DeviceVariable::Filtration)
        } else if same_text(name, "Harvest") {
            Some(DeviceVariable::Harvest)
        } else if same_text(name, "Horizontal") {
            Some(DeviceVariable::Horizontal)
        } else if same_text(name, "HorizontalRatio") {
            Some(DeviceVariable::HorizontalRatio)
        } else if same_text(name, "Idle") {
            Some(DeviceVariable::Idle)
        } else if same_text(name, "ImportCount") {
            Some(DeviceVariable::ImportCount)
        } else if same_text(name, "Lock") {
            Some(DeviceVariable::Lock)
        } else if same_text(name, "Maximum") {
            Some(DeviceVariable::Maximum)
        } else if same_text(name, "Mode") {
            Some(DeviceVariable::Mode)
        } else if same_text(name, "On") {
            Some(DeviceVariable::On)
        } else if same_text(name, "Open") {
            Some(DeviceVariable::Open)
        } else if same_text(name, "Output") {
            Some(DeviceVariable::Output)
        } else if same_text(name, "Plant") {
            Some(DeviceVariable::Plant)
        } else if same_text(name, "PositionX") {
            Some(DeviceVariable::PositionX)
        } else if same_text(name, "PositionY") {
            Some(DeviceVariable::PositionY)
        } else if same_text(name, "Power") {
            Some(DeviceVariable::Power)
        } else if same_text(name, "PowerActual") {
            Some(DeviceVariable::PowerActual)
        } else if same_text(name, "PowerPotential") {
            Some(DeviceVariable::PowerPotential)
        } else if same_text(name, "PowerRequired") {
            Some(DeviceVariable::PowerRequired)
        } else if same_text(name, "Pressure") {
            Some(DeviceVariable::Pressure)
        } else if same_text(name, "PressureExternal") {
            Some(DeviceVariable::PressureExternal)
        } else if same_text(name, "PressureInternal") {
            Some(DeviceVariable::PressureInternal)
        } else if same_text(name, "PressureSetting") {
            Some(DeviceVariable::PressureSetting)
        } else if same_text(name, "Quantity") {
            Some(DeviceVariable::Quantity)
        } else if same_text(name, "Ratio") {
            Some(DeviceVariable::Ratio)
        } else if same_text(name, "RatioCarbonDioxide") {
            Some(DeviceVariable::RatioCarbonDioxide)
        } else if same_text(name, "RatioNitrogen") {
            Some(DeviceVariable::RatioNitrogen)
        } else if same_text(name, "RatioOxygen") {
            Some(DeviceVariable::RatioOxygen)
        } else if same_text(name, "RatioPollutant") {
            Some(DeviceVariable::RatioPollutant)
        } else if same_text(name, "RatioVolatiles") {
            Some(DeviceVariable::RatioVolatiles)
        } else if same_text(name, "RatioWater") {
            Some(DeviceVariable::RatioWater)
        } else if same_text(name, "Reagents") {
            Some(DeviceVariable::Reagents)
        } else if same_text(name, "RecipeHash") {
            Some(DeviceVariable::RecipeHash)
        } else if same_text(name, "RequestHash") {
            Some(DeviceVariable::RequestHash)
        } else if same_text(name, "RequiredPower") {
            Some(DeviceVariable::RequiredPower)
        } else if same_text(name, "Setting") {
            Some(DeviceVariable::Setting)
        } else if same_text(name, "SolarAngle") {
            Some(DeviceVariable::SolarAngle)
        } else if same_text(name, "Temperature") {
            Some(DeviceVariable::Temperature)
        } else if same_text(name, "TemperatureSettings") {
            Some(DeviceVariable::TemperatureSettings)
        } else if same_text(name, "TotalMoles") {
            Some(DeviceVariable::TotalMoles)
        } else if same_text(name, "VelocityMagnitude") {
            Some(DeviceVariable::VelocityMagnitude)
        } else if same_text(name, "VelocityRelativeX") {
            Some(DeviceVariable::VelocityRelativeX)
        } else if same_text(name, "VelocityRelativeY") {
            Some(DeviceVariable::VelocityRelativeY)
        } else if same_text(name, "VelocityRelativeZ") {
            Some(DeviceVariable::VelocityRelativeZ)
        } else if same_text(name, "Vertical") {
            Some(DeviceVariable::Vertical)
        } else if same_text(name, "VerticalRatio") {
            Some(DeviceVariable::VerticalRatio)
        } else if same_text(name, "Volume") {
            Some(DeviceVariable::Volume)
        } else {
            None
        }
    }

    /// The name of the device attribute in assembly text.
    pub fn name(&self) -> (r: &'static str)
        ensures
            r@ == self.text(),
    {
        match self {
            DeviceVariable::Activate => "Activate",
            DeviceVariable::AirRelease => "AirRelease",
            DeviceVariable::Charge => "Charge",
            DeviceVariable::ClearMemory => "ClearMemory",
            DeviceVariable::Color => "Color",
            DeviceVariable::CompletionRatio => "CompletionRatio",
            DeviceVariable::ElevatorLevel => "ElevatorLevel",
            DeviceVariable::ElevatorSpeed => "ElevatorSpeed",
            DeviceVariable::Error => "Error",
            DeviceVariable::ExportCount => "ExportCount",
            DeviceVariable::Filtration => "Filtration",
            DeviceVariable::Harvest => "Harvest",
            DeviceVariable::Horizontal => "Horizontal",
            DeviceVariable::HorizontalRatio => "HorizontalRatio",
            DeviceVariable::Idle => "Idle",
            DeviceVariable::ImportCount => "ImportCount",
            DeviceVariable::Lock => "Lock",
            DeviceVariable::Maximum => "Maximum",
            DeviceVariable::Mode => "Mode",
            DeviceVariable::On => "On",
            DeviceVariable::Open => "Open",
            DeviceVariable::Output => "Output",
            DeviceVariable::Plant => "Plant",
            DeviceVariable::PositionX => "PositionX",
            DeviceVariable::PositionY => "PositionY",
            DeviceVariable::Power => "Power",
            DeviceVariable::PowerActual => "PowerActual",
            DeviceVariable::PowerPotential => "PowerPotential",
            DeviceVariable::PowerRequired => "PowerRequired",
            DeviceVariable::Pressure => "Pressure",
            DeviceVariable::PressureExternal => "PressureExternal",
            DeviceVariable::PressureInternal => "PressureInternal",
            DeviceVariable::PressureSetting => "PressureSetting",
            DeviceVariable::Quantity => "Quantity",
            DeviceVariable::Ratio => "Ratio",
            DeviceVariable::RatioCarbonDioxide => "RatioCarbonDioxide",
            DeviceVariable::RatioNitrogen => "RatioNitrogen",
            DeviceVariable::RatioOxygen => "RatioOxygen",
            DeviceVariable::RatioPollutant => "RatioPollutant",
            DeviceVariable::RatioVolatiles => "RatioVolatiles",
            DeviceVariable::RatioWater => "RatioWater",
            DeviceVariable::Reagents => "Reagents",
            DeviceVariable::RecipeHash => "RecipeHash",
            DeviceVariable::RequestHash => "RequestHash",
            DeviceVariable::RequiredPower => "RequiredPower",
            DeviceVariable::Setting => "Setting",
            DeviceVariable::SolarAngle => "SolarAngle",
            DeviceVariable::Temperature => "Temperature",
            DeviceVariable::TemperatureSettings => "TemperatureSettings",
            DeviceVariable::TotalMoles => "TotalMoles",
            DeviceVariable::VelocityMagnitude => "VelocityMagnitude",
            DeviceVariable::VelocityRelativeX => "VelocityRelativeX",
            DeviceVariable::VelocityRelativeY => "VelocityRelativeY",
            DeviceVariable::VelocityRelativeZ => "VelocityRelativeZ",
            DeviceVariable::Vertical => "Vertical",
            DeviceVariable::VerticalRatio => "VerticalRatio",
            DeviceVariable::Volume => "Volume",
        }
    }

    /// The place of the device attribute among the device attributes, in the order of their declaration.
    pub open spec fn slot(self) -> int {
        match self {
            DeviceVariable::Activate => 0,
            DeviceVariable::AirRelease => 1,
            DeviceVariable::Charge => 2,
            DeviceVariable::ClearMemory => 3,
            DeviceVariable::Color => 4,
            DeviceVariable::CompletionRatio => 5,
            DeviceVariable::ElevatorLevel => 6,
            DeviceVariable::ElevatorSpeed => 7,
            DeviceVariable::Error => 8,
            DeviceVariable::ExportCount => 9,
            DeviceVariable::Filtration => 10,
            DeviceVariable::Harvest => 11,
            DeviceVariable::Horizontal => 12,
            DeviceVariable::HorizontalRatio => 13,
            DeviceVariable::Idle => 14,
            DeviceVariable::ImportCount => 15,
            DeviceVariable::Lock => 16,
            DeviceVariable::Maximum => 17,
            DeviceVariable::Mode => 18,
            DeviceVariable::On => 19,
            DeviceVariable::Open => 20,
            DeviceVariable::Output => 21,
            DeviceVariable::Plant => 22,
            DeviceVariable::PositionX => 23,
            DeviceVariable::PositionY => 24,
            DeviceVariable::Power => 25,
            DeviceVariable::PowerActual => 26,
            DeviceVariable::PowerPotential => 27,
            DeviceVariable::PowerRequired => 28,
            DeviceVariable::Pressure => 29,
            DeviceVariable::PressureExternal => 30,
            DeviceVariable::PressureInternal => 31,
            DeviceVariable::PressureSetting => 32,
            DeviceVariable::Quantity => 33,
            DeviceVariable::Ratio => 34,
            DeviceVariable::RatioCarbonDioxide => 35,
            DeviceVariable::RatioNitrogen => 36,
            DeviceVariable::RatioOxygen => 37,
            DeviceVariable::RatioPollutant => 38,
            DeviceVariable::RatioVolatiles => 39,
            DeviceVariable::RatioWater => 40,
            DeviceVariable::Reagents => 41,
            DeviceVariable::RecipeHash => 42,
            DeviceVariable::RequestHash => 43,
            DeviceVariable::RequiredPower => 44,
            DeviceVariable::Setting => 45,
            DeviceVariable::SolarAngle => 46,
            DeviceVariable::Temperature => 47,
            DeviceVariable::TemperatureSettings => 48,
            DeviceVariable::TotalMoles => 49,
            DeviceVariable::VelocityMagnitude => 50,
            DeviceVariable::VelocityRelativeX => 51,
            DeviceVariable::VelocityRelativeY => 52,
            DeviceVariable::VelocityRelativeZ => 53,
            DeviceVariable::Vertical => 54,
            DeviceVariable::VerticalRatio => 55,
            DeviceVariable::Volume => 56,
        }
    }

    /// The place of the device attribute among the device attributes.
    pub fn index(&self) -> (r: usize)
        ensures
            r == self.slot(),
            r < 57,
    {
        match self {
            DeviceVariable::Activate => 0,
            DeviceVariable::AirRelease => 1,
            DeviceVariable::Charge => 2,
            DeviceVariable::ClearMemory => 3,
            DeviceVariable::Color => 4,
            DeviceVariable::CompletionRatio => 5,
            DeviceVariable::ElevatorLevel => 6,
            DeviceVariable::ElevatorSpeed => 7,
            DeviceVariable::Error => 8,
            DeviceVariable::ExportCount => 9,
            DeviceVariable::Filtration => 10,
            DeviceVariable::Harvest => 11,
            DeviceVariable::Horizontal => 12,
            DeviceVariable::HorizontalRatio => 13,
            DeviceVariable::Idle => 14,
            DeviceVariable::ImportCount => 15,
            DeviceVariable::Lock => 16,
            DeviceVariable::Maximum => 17,
            DeviceVariable::Mode => 18,
            DeviceVariable::On => 19,
            DeviceVariable::Open => 20,
            DeviceVariable::Output => 21,
            DeviceVariable::Plant => 22,
            DeviceVariable::PositionX => 23,
            DeviceVariable::PositionY => 24,
            DeviceVariable::Power => 25,
            DeviceVariable::PowerActual => 26,
            DeviceVariable::PowerPotential => 27,
            DeviceVariable::PowerRequired => 28,
            DeviceVariable::Pressure => 29,
            DeviceVariable::PressureExternal => 30,
            DeviceVariable::PressureInternal => 31,
            DeviceVariable::PressureSetting => 32,
            DeviceVariable::Quantity => 33,
            DeviceVariable::Ratio => 34,
            DeviceVariable::RatioCarbonDioxide => 35,
            DeviceVariable::RatioNitrogen => 36,
            DeviceVariable::RatioOxygen => 37,
            DeviceVariable::RatioPollutant => 38,
            DeviceVariable::RatioVolatiles => 39,
            DeviceVariable::RatioWater => 40,
            DeviceVariable::Reagents => 41,
            DeviceVariable::RecipeHash => 42,
            DeviceVariable::RequestHash => 43,
            DeviceVariable::RequiredPower => 44,
            DeviceVariable::Setting => 45,
            DeviceVariable::SolarAngle => 46,
            DeviceVariable::Temperature => 47,
            DeviceVariable::TemperatureSettings => 48,
            DeviceVariable::TotalMoles => 49,
            DeviceVariable::VelocityMagnitude => 50,
            DeviceVariable::VelocityRelativeX => 51,
            DeviceVariable::VelocityRelativeY => 52,
            DeviceVariable::VelocityRelativeZ => 53,
            DeviceVariable::Vertical => 54,
            DeviceVariable::VerticalRatio => 55,
            DeviceVariable::Volume => 56,
        }
    }
}

/// An operand that is a register or a literal number.
#[derive(Clone, Copy, Debug, PartialEq, Eq, Structural)]
pub enum RegisterOrNumber {
    Register(Register),
    Number(Number),
}

/// Where a jump goes.
#[derive(Clone, Debug, PartialEq, Eq)]
pub enum JumpDest {
    Label(String),
    Register(Register),
    Number(Number),
}

} // verus!
