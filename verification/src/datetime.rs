//! The fields of the form that sets a point's date and time.
use crate::dates::{date_exists, days_in_month, max_year, min_year, time_exists, PointDate, PointTime};
use vstd::prelude::*;

verus! {

/// The form's fields: year, month, day, hour, minute and second.
#[derive(Clone, Copy, Debug, PartialEq, Eq)]
pub struct DateTimeFields {
    pub year: i32,
    pub month: u32,
    pub day: u32,
    pub hour: u32,
    pub minute: u32,
    pub second: u32,
}

/// One field of the form.
#[derive(Clone, Copy, Debug, PartialEq, Eq)]
pub enum DateTimeField {
    Year,
    Month,
    Day,
    Hour,
    Minute,
    Second,
}

impl Default for DateTimeFields {
    fn default() -> (r: Self)
        ensures
            r == (DateTimeFields { year: 2024, month: 1, day: 1, hour: 0, minute: 0, second: 0 }),
    {
        DateTimeFields { year: 2024, month: 1, day: 1, hour: 0, minute: 0, second: 0 }
    }
}

impl DateTimeFields {
    /// The fields with `field` one up: the year always; the month below 12, the day below 31,
    /// the hour below 23 and the minute and second below 59; else unchanged.
    pub open spec fn spec_step_up(self, field: DateTimeField) -> DateTimeFields {
        match field {
            DateTimeField::Year => DateTimeFields { year: (self.year + 1) as i32, ..self },
            DateTimeField::Month => if self.month < 12 {
                DateTimeFields { month: (self.month + 1) as u32, ..self }
            } else {
                self
            },
            DateTimeField::Day => if self.day < 31 {
                DateTimeFields { day: (self.day + 1) as u32, ..self }
            } else {
                self
            },
            DateTimeField::Hour => if self.hour < 23 {
                DateTimeFields { hour: (self.hour + 1) as u32, ..self }
            } else {
                self
            },
            DateTimeField::Minute => if self.minute < 59 {
                DateTimeFields { minute: (self.minute + 1) as u32, ..self }
            } else {
                self
            },
            DateTimeField::Second => if self.second < 59 {
                DateTimeFields { second: (self.second + 1) as u32, ..self }
            } else {
                self
            },
        }
    }

    /// The fields with `field` one down: the year always; the month and day above 1, the hour,
    /// minute and second above 0; else unchanged.
    pub open spec fn spec_step_down(self, field: DateTimeField) -> DateTimeFields {
        match field {
            DateTimeField::Year => DateTimeFields { year: (self.year - 1) as i32, ..self },
            DateTimeField::Month => if self.month > 1 {
                DateTimeFields { month: (self.month - 1) as u32, ..self }
            } else {
                self
            },
            DateTimeField::Day => if self.day > 1 {
                DateTimeFields { day: (self.day - 1) as u32, ..self }
            } else {
                self
            },
            DateTimeField::Hour => if self.hour > 0 {
                DateTimeFields { hour: (self.hour - 1) as u32, ..self }
            } else {
                self
            },
            DateTimeField::Minute => if self.minute > 0 {
                DateTimeFields { minute: (self.minute - 1) as u32, ..self }
            } else {
                self
            },
            DateTimeField::Second => if self.second > 0 {
                DateTimeFields { second: (self.second - 1) as u32, ..self }
            } else {
                self
            },
        }
    }

    /// The fields brought into range: month 1 to 12, day 1 to 31, hour up to 23, minute and
    /// second up to 59; the year as it is.
    pub open spec fn spec_clamped(self) -> DateTimeFields {
        DateTimeFields {
            year: self.year,
            month: if self.month > 12 {
                12
            } else if self.month < 1 {
                1
            } else {
                self.month
            },
            day: if self.day > 31 {
                31
            } else if self.day < 1 {
                1
            } else {
                self.day
            },
            hour: if self.hour > 23 {
                23
            } else {
                self.hour
            },
            minute: if self.minute > 59 {
                59
            } else {
                self.minute
            },
            second: if self.second > 59 {
                59
            } else {
                self.second
            },
        }
    }

    /// Steps a field up (the arrow above it).
    pub fn step_up(&mut self, field: DateTimeField)
        requires
            field == DateTimeField::Year ==> old(self).year < i32::MAX,
        ensures
            *final(self) == old(self).spec_step_up(field),
    {
        match field {
            DateTimeField::Year => {
                self.year = self.year + 1;
            },
            DateTimeField::Month => {
                if self.month < 12 {
                    self.month = self.month + 1;
                }
            },
            DateTimeField::Day => {
                if self.day < 31 {
                    self.day = self.day + 1;
                }
            },
            DateTimeField::Hour => {
                if self.hour < 23 {
                    self.hour = self.hour + 1;
                }
            },
            DateTimeField::Minute => {
                if self.minute < 59 {
                    self.minute = self.minute + 1;
                }
            },
            DateTimeField::Second => {
                if self.second < 59 {
                    self.second = self.second + 1;
                }
            },
        }
    }

    /// Steps a field down (the arrow below it).
    pub fn step_down(&mut self, field: DateTimeField)
        requires
            field == DateTimeField::Year ==> old(self).year > i32::MIN,
        ensures
            *final(self) == old(self).spec_step_down(field),
    {
        match field {
            DateTimeField::Year => {
                self.year = self.year - 1;
            },
            DateTimeField::Month => {
                if self.month > 1 {
                    self.month = self.month - 1;
                }
            },
            DateTimeField::Day => {
                if self.day > 1 {
                    self.day = self.day - 1;
                }
            },
            DateTimeField::Hour => {
                if self.hour > 0 {
                    self.hour = self.hour - 1;
                }
            },
            DateTimeField::Minute => {
                if self.minute > 0 {
                    self.minute = self.minute - 1;
                }
            },
            DateTimeField::Second => {
                if self.second > 0 {
                    self.second = self.second - 1;
                }
            },
        }
    }

    /// Brings the fields into range, as the form does after every edit.
    pub fn clamp(&mut self)
        ensures
            *final(self) == old(self).spec_clamped(),
    {
        if self.month > 12 {
            self.month = 12;
        } else if self.month < 1 {
            self.month = 1;
        }
        if self.day > 31 {
            self.day = 31;
        } else if self.day < 1 {
            self.day = 1;
        }
        if self.hour > 23 {
            self.hour = 23;
        }
        if self.minute > 59 {
            self.minute = 59;
        }
        if self.second > 59 {
            self.second = 59;
        }
    }

    /// The day to suggest when the date of the fields does not exist: the last day of the
    /// month (the first day below the entered one that makes a date, as chrono judges it).
    /// None when the date exists.
    pub fn suggested_day(&self) -> (r: Option<u32>)
        requires
            min_year() <= self.year <= max_year(),
            1 <= self.month <= 12,
            1 <= self.day,
        ensures
            r is None <==> date_exists(self.year as int, self.month as int, self.day as int),
            r matches Some(d) ==> d == days_in_month(self.year as int, self.month as int),
    {
        if PointDate::new(self.year, self.month, self.day).is_some() {
            return None;
        }
        let mut d = self.day;
        while PointDate::new(self.year, self.month, d).is_none()
            invariant
                min_year() <= self.year <= max_year(),
                1 <= self.month <= 12,
                days_in_month(self.year as int, self.month as int) <= d <= self.day,
            decreases d,
        {
            d = d - 1;
        }
        Some(d)
    }

    /// The date and time of the fields, when both exist (the form's Ok).
    pub fn confirmed(&self) -> (r: Option<(PointDate, PointTime)>)
        ensures
            r is Some <==> (date_exists(self.year as int, self.month as int, self.day as int)
                && time_exists(self.hour as int, self.minute as int, self.second as int)),
            r matches Some(dt) ==> dt.0@ == (self.year, self.month, self.day) && dt.1@ == (
                self.hour,
                self.minute,
                self.second,
                false,
            ),
    {
        match PointDate::new(self.year, self.month, self.day) {
            Some(d) => match PointTime::new(self.hour, self.minute, self.second) {
                Some(t) => Some((d, t)),
                None => None,
            },
            None => None,
        }
    }
}

} // verus!
