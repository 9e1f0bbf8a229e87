//! The vocabulary of the game: categories, goods, holdings and trades.

use vstd::prelude::*;

verus! {

/// A seat at the table, counted from zero.
pub type PlayerId = usize;

/// How much of each category a player holds, or a trade moves.
pub type GoodsSet = PerCategory<i64>;

/// How many points one unit of each category is worth to a player.
pub type Preferences = PerCategory<u32>;

/// The kinds of goods. Money is never in the deck.
#[derive(Clone, Copy, PartialEq, Eq, Structural, Debug)]
pub enum Category {
    Money,
    Cars,
    Clothing,
    Food,
    Art,
    Travel,
}

impl Category {
    /// The position of the category in the fixed vocabulary.
    pub open spec fn ordinal(self) -> int {
        match self {
            Category::Money => 0,
            Category::Cars => 1,
            Category::Clothing => 2,
            Category::Food => 3,
            Category::Art => 4,
            Category::Travel => 5,
        }
    }

    /// The category at a position of the vocabulary.
    pub open spec fn at(i: int) -> Category {
        if i == 0 {
            Category::Money
        } else if i == 1 {
            Category::Cars
        } else if i == 2 {
            Category::Clothing
        } else if i == 3 {
            Category::Food
        } else if i == 4 {
            Category::Art
        } else {
            Category::Travel
        }
    }

    /// The name of the category.
    pub open spec fn label(self) -> Seq<char> {
        match self {
            Category::Money => "money"@,
            Category::Cars => "cars"@,
            Category::Clothing => "clothing"@,
            Category::Food => "food"@,
            Category::Art => "art"@,
            Category::Travel => "travel"@,
        }
    }

    /// The name of the category.
    pub fn name(self) -> (name: &'static str)
        ensures
            name@ == self.label(),
    {
        match self {
            Category::Money => "money",
            Category::Cars => "cars",
            Category::Clothing => "clothing",
            Category::Food => "food",
            Category::Art => "art",
            Category::Travel => "travel",
        }
    }

    /// The category of a name, if it is the name of one.
    pub fn from_name(name: &str) -> (category: Option<Category>)
        ensures
            match category {
                Some(c) => c.label() == name@,
                None => forall|c: Category| c.label() != name@,
            },
    {
        let wanted = name.to_owned();
        let mut i: usize = 0;
        while i < 6
            invariant
                i <= 6,
                wanted@ == name@,
                forall|j: int| 0 <= j < i ==> Category::at(j).label() != name@,
            decreases 6 - i,
        {
            let c = Category::from_index(i);
            let label = c.name().to_owned();
            if label == wanted {
                return Some(c);
            }
            i = i + 1;
        }
        assert forall|c: Category| c.label() != name@ by {
            assert(Category::at(c.ordinal()) == c);
        }
        None
    }

    /// The position of the category in the vocabulary.
    pub fn index(self) -> (i: usize)
        ensures
            i == self.ordinal(),
            i < 6,
            Category::at(i as int) == self,
    {
        match self {
            Category::Money => 0,
            Category::Cars => 1,
            Category::Clothing => 2,
            Category::Food => 3,
            Category::Art => 4,
            Category::Travel => 5,
        }
    }

    /// The category at a position of the vocabulary.
    pub fn from_index(i: usize) -> (c: Category)
        requires
            i < 6,
        ensures
            c == Category::at(i as int),
            c.ordinal() == i,
    {
        if i == 0 {
            Category::Money
        } else if i == 1 {
            Category::Cars
        } else if i == 2 {
            Category::Clothing
        } else if i == 3 {
            Category::Food
        } else if i == 4 {
            Category::Art
        } else {
            Category::Travel
        }
    }
}

/// One value for each category.
#[derive(Debug)]
pub struct PerCategory<T> {
    pub money: T,
    pub cars: T,
    pub clothing: T,
    pub food: T,
    pub art: T,
    pub travel: T,
}

impl<T: Copy> Clone for PerCategory<T> {
    fn clone(&self) -> (r: Self)
        ensures
            r == *self,
    {
        *self
    }
}

impl<T: Copy> Copy for PerCategory<T> {

}

impl<T: Copy> PerCategory<T> {
    /// The value kept for a category.
    pub open spec fn of(self, c: Category) -> T {
        match c {
            Category::Money => self.money,
            Category::Cars => self.cars,
            Category::Clothing => self.clothing,
            Category::Food => self.food,
            Category::Art => self.art,
            Category::Travel => self.travel,
        }
    }

    /// The same values, but for one category.
    pub open spec fn with(self, c: Category, value: T) -> Self {
        match c {
            Category::Money => PerCategory { money: value, ..self },
            Category::Cars => PerCategory { cars: value, ..self },
            Category::Clothing => PerCategory { clothing: value, ..self },
            Category::Food => PerCategory { food: value, ..self },
            Category::Art => PerCategory { art: value, ..self },
            Category::Travel => PerCategory { travel: value, ..self },
        }
    }

    /// `with` changes the value of its category and of no other.
    pub proof fn lemma_with(self, c: Category, value: T)
        ensures
            self.with(c, value).of(c) == value,
            forall|d: Category| d != c ==> #[trigger] self.with(c, value).of(d) == self.of(d),
    {
    }

    /// The same value for every category.
    pub fn uniform(value: T) -> (r: Self)
        ensures
            r == (PerCategory {
                money: value,
                cars: value,
                clothing: value,
                food: value,
                art: value,
                travel: value,
            }),
            forall|c: Category| r.of(c) == value,
    {
        PerCategory {
            money: value,
            cars: value,
            clothing: value,
            food: value,
            art: value,
            travel: value,
        }
    }

    /// The value kept for a category.
    pub fn get(&self, c: Category) -> (value: T)
        ensures
            value == self.of(c),
    {
        match c {
            Category::Money => self.money,
            Category::Cars => self.cars,
            Category::Clothing => self.clothing,
            Category::Food => self.food,
            Category::Art => self.art,
            Category::Travel => self.travel,
        }
    }

    /// Replaces the value kept for a category.
    pub fn set(&mut self, c: Category, value: T)
        ensures
            *final(self) == old(self).with(c, value),
    {
        match c {
            Category::Money => self.money = value,
            Category::Cars => self.cars = value,
            Category::Clothing => self.clothing = value,
            Category::Food => self.food = value,
            Category::Art => self.art = value,
            Category::Travel => self.travel = value,
        }
    }
}

impl PerCategory<i64> {
    /// The amounts of both sets added up, category by category.
    pub open spec fn plus(self, other: GoodsSet) -> GoodsSet {
        PerCategory {
            money: (self.money + other.money) as i64,
            cars: (self.cars + other.cars) as i64,
            clothing: (self.clothing + other.clothing) as i64,
            food: (self.food + other.food) as i64,
            art: (self.art + other.art) as i64,
            travel: (self.travel + other.travel) as i64,
        }
    }

    /// The amounts of this set less those of the other, category by category.
    pub open spec fn minus(self, other: GoodsSet) -> GoodsSet {
        PerCategory {
            money: (self.money - other.money) as i64,
            cars: (self.cars - other.cars) as i64,
            clothing: (self.clothing - other.clothing) as i64,
            food: (self.food - other.food) as i64,
            art: (self.art - other.art) as i64,
            travel: (self.travel - other.travel) as i64,
        }
    }

    /// No amount is set.
    pub open spec fn is_zero(self) -> bool {
        forall|c: Category| self.of(c) == 0
    }

    /// Whether no amount is set.
    pub fn is_empty(&self) -> (r: bool)
        ensures
            r == self.is_zero(),
    {
        let r = self.money == 0 && self.cars == 0 && self.clothing == 0 && self.food == 0
            && self.art == 0 && self.travel == 0;
        proof {
            if r {
                assert forall|c: Category| self.of(c) == 0 by {}
            } else {
                assert(self.of(Category::Money) == self.money);
                assert(self.of(Category::Cars) == self.cars);
                assert(self.of(Category::Clothing) == self.clothing);
                assert(self.of(Category::Food) == self.food);
                assert(self.of(Category::Art) == self.art);
                assert(self.of(Category::Travel) == self.travel);
            }
        }
        r
    }
}

/// A card of the deck.
#[derive(Clone, Copy, Debug)]
pub struct Good {
    pub category: Category,
}

/// An offer from one player to another: what the proposer gives, and what
/// the proposer asks of the accepter. A positive amount leaves the side it is
/// listed under when the trade is settled; a negative amount arrives there.
#[derive(Clone, Copy, Debug)]
pub struct Trade {
    pub proposer: PlayerId,
    pub accepter: PlayerId,
    /// What goes from the proposer to the accepter.
    pub from_proposor: GoodsSet,
    /// What goes from the accepter to the proposer.
    pub from_acceptor: GoodsSet,
}

} // verus!
